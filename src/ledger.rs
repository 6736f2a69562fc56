use vstd::prelude::*;
use crate::token::{AccountId, Balance, LedgerError, MINT_FEE, OTHER_FEE, TokenData, TokenId, TokenMetadata, TokenStatus, TokenView};

verus! {

/// The listing of an account after a token moved from `from` to `to`:
/// the token leaves the listing of `from` and is appended to that of `to`.
pub open spec fn moved(
    s: Seq<TokenId>,
    a: Seq<char>,
    from: Seq<char>,
    to: Seq<char>,
    id: TokenId,
) -> Seq<TokenId> {
    let r = if a == from {
        s.remove_value(id)
    } else {
        s
    };
    if a == to {
        r.push(id)
    } else {
        r
    }
}


/// `post` is `pre` after token `id` was minted for `owner` with `metadata`.
pub open spec fn minted(pre: Contract, post: Contract, owner: Seq<char>, metadata: Seq<char>, id: TokenId) -> bool {
    &&& post.wf()
    &&& id == pre.last_id() + 1
    &&& post.last_id() == id
    &&& post.owner() == pre.owner()
    &&& post.token(id as int) == (TokenView {
        owner_id: owner,
        status: TokenStatus::NotForSale,
        price: 0,
        metadata,
        token_id: id,
    })
    &&& forall|i: int| pre.has_token(i) ==> post.token(i) == pre.token(i)
    &&& forall|a: Seq<char>|
        #[trigger] post.listing_of(a) == if a == owner {
            pre.listing_of(a).push(id)
        } else {
            pre.listing_of(a)
        }
    &&& forall|a: Seq<char>| #[trigger] post.balance_of(a) == pre.balance_of(a)
}

/// `post` is `pre` after token `id` moved to `receiver`, keeping its
/// status, price and metadata.
pub open spec fn moved_to(pre: Contract, post: Contract, id: TokenId, receiver: Seq<char>) -> bool {
    &&& post.wf()
    &&& post.last_id() == pre.last_id()
    &&& post.owner() == pre.owner()
    &&& post.token(id as int) == (TokenView { owner_id: receiver, ..pre.token(id as int) })
    &&& forall|i: int| pre.has_token(i) && i != id ==> post.token(i) == pre.token(i)
    &&& forall|a: Seq<char>|
        #[trigger] post.listing_of(a) == moved(pre.listing_of(a), a, pre.token(id as int).owner_id, receiver, id)
    &&& forall|a: Seq<char>| #[trigger] post.balance_of(a) == pre.balance_of(a)
}

/// `post` is `pre` after token `id` was offered for sale at `price`.
pub open spec fn priced(pre: Contract, post: Contract, id: TokenId, price: Balance) -> bool {
    &&& post.wf()
    &&& post.last_id() == pre.last_id()
    &&& post.owner() == pre.owner()
    &&& post.token(id as int) == (TokenView { status: TokenStatus::ForSale, price, ..pre.token(id as int) })
    &&& forall|i: int| pre.has_token(i) && i != id ==> post.token(i) == pre.token(i)
    &&& forall|a: Seq<char>| #[trigger] post.listing_of(a) == pre.listing_of(a)
    &&& forall|a: Seq<char>| #[trigger] post.balance_of(a) == pre.balance_of(a)
}

/// `post` is `pre` after token `id` was sold to `buyer`: its price went to
/// the seller's balance, it left sale, and it moved to the buyer.
pub open spec fn sold(pre: Contract, post: Contract, id: TokenId, buyer: Seq<char>) -> bool {
    let seller = pre.token(id as int).owner_id;
    &&& post.wf()
    &&& post.last_id() == pre.last_id()
    &&& post.owner() == pre.owner()
    &&& post.token(id as int) == (TokenView {
        owner_id: buyer,
        status: TokenStatus::NotForSale,
        ..pre.token(id as int)
    })
    &&& forall|i: int| pre.has_token(i) && i != id ==> post.token(i) == pre.token(i)
    &&& forall|a: Seq<char>| #[trigger] post.listing_of(a) == moved(pre.listing_of(a), a, seller, buyer, id)
    &&& post.balance_of(seller) == pre.balance_of(seller) + pre.token(id as int).price
    &&& forall|a: Seq<char>| a != seller ==> #[trigger] post.balance_of(a) == pre.balance_of(a)
}

/// `post` is `pre` after the balance of `caller` was paid out and zeroed.
pub open spec fn withdrawn(pre: Contract, post: Contract, caller: Seq<char>) -> bool {
    &&& post.wf()
    &&& post.balance_of(caller) == 0
    &&& forall|a: Seq<char>| a != caller ==> #[trigger] post.balance_of(a) == pre.balance_of(a)
    &&& post.last_id() == pre.last_id()
    &&& post.owner() == pre.owner()
    &&& forall|i: int| pre.has_token(i) ==> post.token(i) == pre.token(i)
    &&& forall|a: Seq<char>| #[trigger] post.listing_of(a) == pre.listing_of(a)
}

/// What a withdrawal by `caller` with `attached` gives: a fee mismatch or
/// an empty balance is rejected and changes nothing; otherwise the whole
/// balance is returned for payment and zeroed.
pub open spec fn withdraw_outcome(
    pre: Contract,
    post: Contract,
    caller: Seq<char>,
    attached: Balance,
    r: Result<Balance, LedgerError>,
) -> bool {
    &&& attached != OTHER_FEE ==> r == Err::<Balance, LedgerError>(LedgerError::PaymentMismatch)
    &&& attached == OTHER_FEE && pre.balance_of(caller) == 0
        ==> r == Err::<Balance, LedgerError>(LedgerError::NothingToWithdraw)
    &&& attached == OTHER_FEE && pre.balance_of(caller) != 0
        ==> r == Ok::<Balance, LedgerError>(pre.balance_of(caller))
    &&& r is Err ==> post == pre
    &&& r is Ok ==> withdrawn(pre, post, caller)
}

/// Every minted token carries its own id and stands in the listing of its
/// owner; every listed id is a minted token owned by the account that lists
/// it; and no listing repeats an id. So each token stands exactly once over
/// all listings.
pub open spec fn listings_partition(c: Contract) -> bool {
    &&& forall|id: int| c.has_token(id) ==> #[trigger] c.token(id).token_id == id
    &&& forall|id: TokenId|
        c.has_token(id as int) ==> #[trigger] c.listing_of(c.token(id as int).owner_id).contains(id)
    &&& forall|a: Seq<char>, i: int|
        0 <= i < c.listing_of(a).len() ==> {
            let id = #[trigger] c.listing_of(a)[i];
            &&& c.has_token(id as int)
            &&& c.token(id as int).owner_id == a
        }
    &&& forall|a: Seq<char>| #[trigger] c.listing_of(a).no_duplicates()
}

/// The marketplace ledger: token records, the listing of each account,
/// the withdrawable proceeds of each account, and the last minted id.
///
/// Listings and balances are stored as association lists: `listing_owners[k]`
/// owns `listings[k]`, and `balance_owners[k]` is owed `balances[k]`.
pub struct Contract {
    contract_owner: AccountId,
    listing_owners: Vec<AccountId>,
    listings: Vec<Vec<TokenId>>,
    balance_owners: Vec<AccountId>,
    balances: Vec<Balance>,
    tokens: Vec<TokenData>,
    last_token_id: TokenId,
}

/// The index of `a` among `keys`, if it is there.
fn find_account(keys: &Vec<AccountId>, a: &AccountId) -> (r: Option<usize>)
    ensures
        match r {
            Some(k) => k < keys@.len() && keys@[k as int]@ == a@,
            None => forall|k: int| 0 <= k < keys@.len() ==> keys@[k]@ != a@,
        },
{
    let mut k: usize = 0;
    while k < keys.len()
        invariant
            k <= keys@.len(),
            forall|j: int| 0 <= j < k ==> keys@[j]@ != a@,
        decreases keys@.len() - k,
    {
        if keys[k] == *a {
            return Some(k);
        }
        k = k + 1;
    }
    None
}

/// A copy of a listing.
fn copy_ids(v: &Vec<TokenId>) -> (r: Vec<TokenId>)
    ensures
        r@ == v@,
{
    let mut r: Vec<TokenId> = Vec::new();
    let mut j: usize = 0;
    while j < v.len()
        invariant
            j <= v@.len(),
            r@ == v@.subrange(0, j as int),
        decreases v@.len() - j,
    {
        r.push(v[j]);
        j = j + 1;
        assert(r@ =~= v@.subrange(0, j as int));
    }
    assert(r@ =~= v@);
    r
}

/// The position of the first occurrence of `id` in `v`, if any.
fn position_of(v: &Vec<TokenId>, id: TokenId) -> (r: Option<usize>)
    ensures
        match r {
            Some(p) => p < v@.len() && v@.index_of_first(id) == Some(p as int),
            None => !v@.contains(id),
        },
{
    let mut p: usize = 0;
    while p < v.len()
        invariant
            p <= v@.len(),
            forall|j: int| 0 <= j < p ==> v@[j] != id,
        decreases v@.len() - p,
    {
        if v[p] == id {
            proof {
                v@.index_of_first_ensures(id);
                assert(v@.contains(id));
                let i = v@.index_of_first(id)->0;
                assert(!(i < p));
                assert(!(i > p));
            }
            return Some(p);
        }
        p = p + 1;
    }
    None
}

proof fn lemma_remove_no_duplicates(s: Seq<TokenId>, p: int)
    requires
        0 <= p < s.len(),
        s.no_duplicates(),
    ensures
        s.remove(p).no_duplicates(),
        forall|x: TokenId| s.remove(p).contains(x) <==> (s.contains(x) && x != s[p]),
{
    let r = s.remove(p);
    assert forall|i: int, j: int| 0 <= i < r.len() && 0 <= j < r.len() && i != j implies r[i] != r[j] by {
        let i2 = if i < p { i } else { i + 1 };
        let j2 = if j < p { j } else { j + 1 };
        assert(r[i] == s[i2] && r[j] == s[j2]);
    }
    assert forall|x: TokenId| r.contains(x) <==> (s.contains(x) && x != s[p]) by {
        if r.contains(x) {
            let i = choose|i: int| 0 <= i < r.len() && r[i] == x;
            let i2 = if i < p { i } else { i + 1 };
            assert(s[i2] == x);
        }
        if s.contains(x) && x != s[p] {
            let i = choose|i: int| 0 <= i < s.len() && s[i] == x;
            let i2 = if i < p { i } else { i - 1 };
            assert(r[i2] == x);
        }
    }
}

proof fn lemma_push_contains(s: Seq<TokenId>, id: TokenId)
    ensures
        forall|x: TokenId| s.push(id).contains(x) <==> (s.contains(x) || x == id),
        !s.contains(id) && s.no_duplicates() ==> s.push(id).no_duplicates(),
{
    let r = s.push(id);
    assert forall|x: TokenId| r.contains(x) <==> (s.contains(x) || x == id) by {
        if r.contains(x) {
            let i = choose|i: int| 0 <= i < r.len() && r[i] == x;
            if i < s.len() {
                assert(s[i] == x);
            }
        }
        if s.contains(x) {
            let i = choose|i: int| 0 <= i < s.len() && s[i] == x;
            assert(r[i] == x);
        }
        if x == id {
            assert(r[s.len() as int] == x);
        }
    }
    if !s.contains(id) && s.no_duplicates() {
        assert forall|i: int, j: int| 0 <= i < r.len() && 0 <= j < r.len() && i != j implies r[i] != r[j] by {
            if i < s.len() && j < s.len() {
                assert(r[i] == s[i] && r[j] == s[j]);
            } else if i < s.len() {
                assert(r[i] == s[i]);
            } else if j < s.len() {
                assert(r[j] == s[j]);
            }
        }
    }
}

impl Contract {
    /// The last token id handed out; 0 before the first mint.
    pub closed spec fn last_id(&self) -> nat {
        self.last_token_id as nat
    }

    /// Whether `id` names a minted token.
    pub open spec fn has_token(&self, id: int) -> bool {
        1 <= id <= self.last_id()
    }

    /// The record of token `id`.
    pub closed spec fn token(&self, id: int) -> TokenView {
        self.tokens@[id - 1]@
    }

    /// The tokens owned by `a`, in the order in which they came to it;
    /// empty for an account that never owned one.
    pub closed spec fn listing_of(&self, a: Seq<char>) -> Seq<TokenId> {
        if exists|k: int| 0 <= k < self.listing_owners@.len() && self.listing_owners@[k]@ == a {
            let k = choose|k: int| 0 <= k < self.listing_owners@.len() && self.listing_owners@[k]@ == a;
            self.listings@[k]@
        } else {
            Seq::empty()
        }
    }

    /// The proceeds that `a` may withdraw; 0 for an account never credited.
    pub closed spec fn balance_of(&self, a: Seq<char>) -> Balance {
        if exists|k: int| 0 <= k < self.balance_owners@.len() && self.balance_owners@[k]@ == a {
            let k = choose|k: int| 0 <= k < self.balance_owners@.len() && self.balance_owners@[k]@ == a;
            self.balances@[k]
        } else {
            0
        }
    }

    /// The account that created the ledger.
    pub closed spec fn owner(&self) -> Seq<char> {
        self.contract_owner@
    }

    /// The ledger's invariant: records are stored by id, each account has
    /// at most one listing and one balance entry, and every minted token
    /// stands exactly once in the listing of its owner and nowhere else.
    pub closed spec fn wf(&self) -> bool {
        &&& self.listing_owners@.len() == self.listings@.len()
        &&& self.balance_owners@.len() == self.balances@.len()
        &&& self.tokens@.len() == self.last_token_id
        &&& forall|i: int| 0 <= i < self.tokens@.len() ==> #[trigger] self.tokens@[i].token_id == i + 1
        &&& forall|i: int, j: int|
            0 <= i < self.listing_owners@.len() && 0 <= j < self.listing_owners@.len() && i != j
                ==> self.listing_owners@[i]@ != self.listing_owners@[j]@
        &&& forall|i: int, j: int|
            0 <= i < self.balance_owners@.len() && 0 <= j < self.balance_owners@.len() && i != j
                ==> self.balance_owners@[i]@ != self.balance_owners@[j]@
        &&& forall|k: int| 0 <= k < self.listings@.len() ==> (#[trigger] self.listings@[k])@.no_duplicates()
        &&& forall|k: int, j: int|
            0 <= k < self.listings@.len() && 0 <= j < self.listings@[k]@.len() ==> {
                let id = #[trigger] self.listings@[k]@[j];
                &&& 1 <= id <= self.last_token_id
                &&& self.tokens@[id - 1].owner_id@ == self.listing_owners@[k]@
            }
        &&& forall|id: int| 1 <= id <= self.last_token_id ==> #[trigger] self.is_listed(id)
    }

    /// Token `id` stands in the listing of the account that owns it.
    closed spec fn is_listed(&self, id: int) -> bool {
        exists|k: int|
            0 <= k < self.listings@.len() && self.listing_owners@[k]@ == self.tokens@[id - 1].owner_id@
                && self.listings@[k]@.contains(id as TokenId)
    }

    /// Token records are addressed by a `usize` index, which every minted
    /// id minus one fits.
    proof fn lemma_token_slot(&self)
        requires
            self.wf(),
        ensures
            self.last_id() <= usize::MAX,
    {
        assert(self.tokens.len() == self.tokens@.len());
    }

    proof fn lemma_listing_at(&self, k: int)
        requires
            self.wf(),
            0 <= k < self.listing_owners@.len(),
        ensures
            self.listing_of(self.listing_owners@[k]@) == self.listings@[k]@,
    {
    }

    proof fn lemma_no_listing(&self, a: Seq<char>)
        requires
            forall|k: int| 0 <= k < self.listing_owners@.len() ==> self.listing_owners@[k]@ != a,
        ensures
            self.listing_of(a) == Seq::<TokenId>::empty(),
    {
    }

    proof fn lemma_balance_at(&self, k: int)
        requires
            self.wf(),
            0 <= k < self.balance_owners@.len(),
        ensures
            self.balance_of(self.balance_owners@[k]@) == self.balances@[k],
    {
    }

    /// A ledger with no tokens, no listings and no balances.
    pub fn new(contract_owner: AccountId) -> (r: Contract)
        ensures
            r.wf(),
            listings_partition(r),
            r.last_id() == 0,
            r.owner() == contract_owner@,
            forall|a: Seq<char>| r.listing_of(a) == Seq::<TokenId>::empty(),
            forall|a: Seq<char>| r.balance_of(a) == 0,
    {
        let r = Contract {
            contract_owner,
            listing_owners: Vec::new(),
            listings: Vec::new(),
            balance_owners: Vec::new(),
            balances: Vec::new(),
            tokens: Vec::new(),
            last_token_id: 0,
        };
        proof {
            r.lemma_listing_partition();
        }
        r
    }

    /// Creates token `last_id() + 1` for `owner_id`, not for sale, at price
    /// 0, and appends it to the owner's listing.
    fn mint(&mut self, owner_id: AccountId, metadata: TokenMetadata) -> (r: TokenId)
        requires
            old(self).wf(),
            old(self).last_id() < u64::MAX,
        ensures
            minted(*old(self), *final(self), owner_id@, metadata@, r),
    {
        self.last_token_id = self.last_token_id + 1;
        let token_id = self.last_token_id;
        let ghost pre = *old(self);
        let found = find_account(&self.listing_owners, &owner_id);
        match found {
            Some(k) => {
                let mut cur = copy_ids(&self.listings[k]);
                cur.push(token_id);
                self.listings.set(k, cur);
            },
            None => {
                self.listing_owners.push(owner_id.clone());
                let mut cur: Vec<TokenId> = Vec::new();
                cur.push(token_id);
                self.listings.push(cur);
            },
        }
        self.tokens.push(
            TokenData {
                owner_id,
                status: TokenStatus::NotForSale,
                price: 0,
                metadata,
                token_id,
            },
        );
        proof {
            let n = self.listings@.len();
            assert forall|k: int| 0 <= k < n implies (#[trigger] self.listings@[k])@.no_duplicates() by {
                if k < pre.listings@.len() && self.listings@[k]@ != pre.listings@[k]@ {
                    assert forall|x: int, y: int|
                        0 <= x < self.listings@[k]@.len() && 0 <= y < self.listings@[k]@.len() && x != y
                        implies self.listings@[k]@[x] != self.listings@[k]@[y] by {
                        if x < pre.listings@[k]@.len() {
                            assert(pre.listings@[k]@[x] <= pre.last_token_id);
                        }
                        if y < pre.listings@[k]@.len() {
                            assert(pre.listings@[k]@[y] <= pre.last_token_id);
                        }
                    }
                }
            }
            assert forall|k: int, j: int|
                0 <= k < n && 0 <= j < self.listings@[k]@.len() implies {
                    let id = #[trigger] self.listings@[k]@[j];
                    &&& 1 <= id <= self.last_token_id
                    &&& self.tokens@[id - 1].owner_id@ == self.listing_owners@[k]@
                } by {
                if k < pre.listings@.len() && j < pre.listings@[k]@.len() {
                    let id = pre.listings@[k]@[j];
                    assert(1 <= id <= pre.last_token_id);
                    assert(self.tokens@[id - 1] == pre.tokens@[id - 1]);
                }
            }
            assert forall|id: int| 1 <= id <= self.last_token_id implies #[trigger] self.is_listed(id) by {
                if id < self.last_token_id {
                    assert(self.tokens@[id - 1] == pre.tokens@[id - 1]);
                    assert(pre.is_listed(id));
                    let k = choose|k: int| 0 <= k < pre.listings@.len()
                        && pre.listing_owners@[k]@ == pre.tokens@[id - 1].owner_id@
                        && pre.listings@[k]@.contains(id as TokenId);
                    let j = choose|j: int| 0 <= j < pre.listings@[k]@.len() && pre.listings@[k]@[j] == id as TokenId;
                    assert(self.listings@[k]@[j] == id as TokenId);
                    assert(self.listings@[k]@.contains(id as TokenId));
                } else {
                    let k = match found { Some(k) => k as int, None => pre.listings@.len() as int };
                    assert(self.listings@[k]@[self.listings@[k]@.len() - 1] == id as TokenId);
                    assert(self.listings@[k]@.contains(id as TokenId));
                }
            }
            assert forall|i: int| 0 <= i < self.tokens@.len() implies #[trigger] self.tokens@[i].token_id == i + 1 by {
                if i < pre.tokens@.len() {
                    assert(self.tokens@[i] == pre.tokens@[i]);
                }
            }
            assert forall|i: int, j: int|
                0 <= i < self.listing_owners@.len() && 0 <= j < self.listing_owners@.len() && i != j
                implies self.listing_owners@[i]@ != self.listing_owners@[j]@ by {
                if found is None {
                    if i == pre.listing_owners@.len() {
                        assert(pre.listing_owners@[j]@ != self.tokens@[token_id - 1].owner_id@);
                    } else if j == pre.listing_owners@.len() {
                        assert(pre.listing_owners@[i]@ != self.tokens@[token_id - 1].owner_id@);
                    }
                }
            }
            assert(self.wf());
            assert forall|a: Seq<char>|
                #[trigger] self.listing_of(a) == if a == self.tokens@[token_id - 1].owner_id@ {
                    pre.listing_of(a).push(token_id)
                } else {
                    pre.listing_of(a)
                } by {
                if exists|k: int| 0 <= k < pre.listing_owners@.len() && pre.listing_owners@[k]@ == a {
                    let k = choose|k: int| 0 <= k < pre.listing_owners@.len() && pre.listing_owners@[k]@ == a;
                    pre.lemma_listing_at(k);
                    self.lemma_listing_at(k);
                } else {
                    pre.lemma_no_listing(a);
                    if a == self.tokens@[token_id - 1].owner_id@ {
                        self.lemma_listing_at(pre.listings@.len() as int);
                        assert(self.listings@[pre.listings@.len() as int]@ =~= seq![token_id]);
                        assert(Seq::<TokenId>::empty().push(token_id) =~= seq![token_id]);
                    } else {
                        self.lemma_no_listing(a);
                    }
                }
            }
            assert forall|a: Seq<char>| #[trigger] self.balance_of(a) == pre.balance_of(a) by {
                assert(self.balance_owners@ == pre.balance_owners@);
                assert(self.balances@ == pre.balances@);
            }
        }
        token_id
    }

    /// Mints a token for `owner_id` when `attached` is exactly the mint fee.
    pub fn mint_token(&mut self, owner_id: AccountId, metadata: TokenMetadata, attached: Balance) -> (r: Result<TokenId, LedgerError>)
        requires
            old(self).wf(),
            old(self).last_id() < u64::MAX,
        ensures
            listings_partition(*final(self)),
            final(self).wf(),
            attached != MINT_FEE ==> r == Err::<TokenId, LedgerError>(LedgerError::PaymentMismatch) && *final(self) == *old(self),
            attached == MINT_FEE ==> r is Ok && minted(*old(self), *final(self), owner_id@, metadata@, r->Ok_0),
    {
        proof {
            self.lemma_listing_partition();
        }
        if attached != MINT_FEE {
            return Err(LedgerError::PaymentMismatch);
        }
        let id = self.mint(owner_id, metadata);
        proof {
            self.lemma_listing_partition();
        }
        Ok(id)
    }

    /// Moves token `token_id` to `receiver`: removes it from its owner's
    /// listing, appends it to the receiver's listing and records the new
    /// owner. Status, price and metadata stay as they are. Authorization is
    /// left to the callers.
    fn transfer(&mut self, receiver: AccountId, token_id: TokenId)
        requires
            old(self).wf(),
            old(self).has_token(token_id as int),
        ensures
            moved_to(*old(self), *final(self), token_id, receiver@),
    {
        let ghost pre = *old(self);
        proof {
            self.lemma_token_slot();
        }
        let idx = (token_id - 1) as usize;
        let owner_id = self.tokens[idx].owner_id.clone();
        proof {
            assert(pre.tokens@[idx as int].token_id == token_id);
            assert(pre.is_listed(token_id as int));
        }
        let k = match find_account(&self.listing_owners, &owner_id) {
            Some(k) => k,
            None => {
                proof {
                    let k = choose|k: int|
                        0 <= k < pre.listings@.len() && pre.listing_owners@[k]@ == pre.tokens@[token_id - 1].owner_id@
                            && pre.listings@[k]@.contains(token_id);
                    assert(pre.listing_owners@[k]@ != owner_id@);
                }
                return;
            },
        };
        let p = match position_of(&self.listings[k], token_id) {
            Some(p) => p,
            None => {
                proof {
                    let j = choose|j: int|
                        0 <= j < pre.listings@.len() && pre.listing_owners@[j]@ == pre.tokens@[token_id - 1].owner_id@
                            && pre.listings@[j]@.contains(token_id);
                    assert(j == k);
                }
                return;
            },
        };
        proof {
            pre.listings@[k as int]@.index_of_first_ensures(token_id);
        }
        let mut from = copy_ids(&self.listings[k]);
        from.remove(p);
        self.listings.set(k, from);
        let ghost mid = *self;
        let found = find_account(&self.listing_owners, &receiver);
        match found {
            Some(m) => {
                let mut to = copy_ids(&self.listings[m]);
                to.push(token_id);
                self.listings.set(m, to);
            },
            None => {
                self.listing_owners.push(receiver.clone());
                let mut to: Vec<TokenId> = Vec::new();
                to.push(token_id);
                self.listings.push(to);
            },
        }
        let t = &self.tokens[idx];
        let moved_token = TokenData {
            owner_id: receiver,
            status: t.status,
            price: t.price,
            metadata: t.metadata.clone(),
            token_id: t.token_id,
        };
        self.tokens.set(idx, moved_token);
        proof {
            let ki = k as int;
            let pi = p as int;
            let tid = token_id as int;
            let from_owner = pre.tokens@[tid - 1].owner_id@;
            let to_owner = self.tokens@[tid - 1].owner_id@;
            let old_len = pre.listings@.len() as int;
            let jm: int = match found {
                Some(m) => m as int,
                None => old_len,
            };
            assert(mid.listing_owners@ == pre.listing_owners@);
            assert(self.listing_owners@[jm]@ == to_owner);
            assert(pre.listings@[ki]@[pi] == token_id);
            assert(mid.listings@[ki]@ == pre.listings@[ki]@.remove(pi));
            lemma_remove_no_duplicates(pre.listings@[ki]@, pi);
            // Before the move, the token stands in list `k` alone.
            assert forall|j: int| 0 <= j < old_len && j != ki implies !(#[trigger] pre.listings@[j])@.contains(token_id) by {
                if pre.listings@[j]@.contains(token_id) {
                    let q = choose|q: int| 0 <= q < pre.listings@[j]@.len() && pre.listings@[j]@[q] == token_id;
                    assert(pre.listings@[j]@[q] == token_id);
                }
            }
            assert forall|j: int| 0 <= j < old_len implies !(#[trigger] mid.listings@[j])@.contains(token_id) by {
                if j != ki {
                    assert(mid.listings@[j] == pre.listings@[j]);
                }
            }
            // The listing index after the move, list by list.
            assert forall|j: int| 0 <= j < self.listings@.len() implies
                (#[trigger] self.listings@[j])@ == if j == old_len {
                    seq![token_id]
                } else if j == jm {
                    mid.listings@[j]@.push(token_id)
                } else {
                    mid.listings@[j]@
                } by {
                if j == old_len {
                    assert(self.listings@[j]@ =~= seq![token_id]);
                }
            }
            assert forall|j: int| 0 <= j < self.listings@.len() implies
                (#[trigger] self.listings@[j])@.no_duplicates() by {
                if j < old_len {
                    if j != ki {
                        assert(mid.listings@[j] == pre.listings@[j]);
                    }
                    lemma_push_contains(mid.listings@[j]@, token_id);
                } else {
                    assert(self.listings@[j]@ =~= seq![token_id]);
                }
            }
            assert forall|id: int| 1 <= id <= pre.last_token_id && id != tid implies
                #[trigger] self.tokens@[id - 1] == pre.tokens@[id - 1] by {
            }
            // Every entry belongs to the token's current owner.
            assert forall|j: int, q: int|
                0 <= j < self.listings@.len() && 0 <= q < self.listings@[j]@.len() implies {
                    let id = #[trigger] self.listings@[j]@[q];
                    &&& 1 <= id <= self.last_token_id
                    &&& self.tokens@[id - 1].owner_id@ == self.listing_owners@[j]@
                } by {
                let x = self.listings@[j]@[q];
                assert(self.listings@[j]@.contains(x));
                if x == token_id {
                    if j < old_len && j != jm {
                        assert(mid.listings@[j]@.contains(token_id));
                    }
                } else if j < old_len {
                    lemma_push_contains(mid.listings@[j]@, token_id);
                    assert(mid.listings@[j]@.contains(x));
                    assert(pre.listings@[j]@.contains(x));
                    let r = choose|r: int| 0 <= r < pre.listings@[j]@.len() && pre.listings@[j]@[r] == x;
                    assert(pre.listings@[j]@[r] == x);
                    assert(self.tokens@[x - 1] == pre.tokens@[x - 1]);
                } else {
                    assert(self.listings@[j]@ =~= seq![token_id]);
                }
            }
            // Every token stands in the listing of its owner.
            assert forall|id: int| 1 <= id <= self.last_token_id implies #[trigger] self.is_listed(id) by {
                if id == tid {
                    if jm == old_len {
                        assert(self.listings@[jm]@[0] == token_id);
                    } else {
                        lemma_push_contains(mid.listings@[jm]@, token_id);
                    }
                    assert(self.listings@[jm]@.contains(token_id));
                } else {
                    assert(pre.is_listed(id));
                    let j = choose|j: int|
                        0 <= j < pre.listings@.len() && pre.listing_owners@[j]@ == pre.tokens@[id - 1].owner_id@
                            && pre.listings@[j]@.contains(id as TokenId);
                    assert(mid.listings@[j]@.contains(id as TokenId));
                    lemma_push_contains(mid.listings@[j]@, token_id);
                    assert(self.listings@[j]@.contains(id as TokenId));
                }
            }
            assert forall|i: int| 0 <= i < self.tokens@.len() implies #[trigger] self.tokens@[i].token_id == i + 1 by {
                assert(pre.tokens@[i].token_id == i + 1);
            }
            assert(self.wf());
            assert forall|a: Seq<char>|
                #[trigger] self.listing_of(a) == moved(
                    pre.listing_of(a),
                    a,
                    pre.token(token_id as int).owner_id,
                    self.tokens@[idx as int].owner_id@,
                    token_id,
                ) by {
                let target = moved(pre.listing_of(a), a, from_owner, to_owner, token_id);
                assert(pre.listings@[ki]@.remove_value(token_id) == pre.listings@[ki]@.remove(pi));
                if exists|j: int| 0 <= j < self.listing_owners@.len() && self.listing_owners@[j]@ == a {
                    let j = choose|j: int| 0 <= j < self.listing_owners@.len() && self.listing_owners@[j]@ == a;
                    self.lemma_listing_at(j);
                    if j < old_len {
                        pre.lemma_listing_at(j);
                        assert((a == from_owner) == (j == ki));
                        assert((a == to_owner) == (j == jm));
                        if j != ki {
                            assert(mid.listings@[j] == pre.listings@[j]);
                        }
                    } else {
                        assert(found is None);
                        assert(j == jm);
                        pre.lemma_no_listing(a);
                        assert(a != from_owner);
                        assert(Seq::<TokenId>::empty().push(token_id) =~= seq![token_id]);
                    }
                } else {
                    self.lemma_no_listing(a);
                    assert forall|j: int| 0 <= j < pre.listing_owners@.len() implies pre.listing_owners@[j]@ != a by {
                        assert(self.listing_owners@[j] == pre.listing_owners@[j]);
                    }
                    pre.lemma_no_listing(a);
                    assert(self.listing_owners@[jm]@ == to_owner);
                    assert(self.listing_owners@[ki]@ == from_owner);
                }
            }
            assert forall|a: Seq<char>| #[trigger] self.balance_of(a) == pre.balance_of(a) by {
                assert(self.balance_owners@ == pre.balance_owners@);
                assert(self.balances@ == pre.balances@);
            }
        }
    }

    /// Records `value` as the withdrawable balance of `a`, leaving every
    /// other store as it is.
    fn set_balance(&mut self, a: &AccountId, value: Balance)
        requires
            old(self).wf(),
        ensures
            final(self).wf(),
            final(self).balance_of(a@) == value,
            forall|b: Seq<char>| b != a@ ==> #[trigger] final(self).balance_of(b) == old(self).balance_of(b),
            final(self).tokens == old(self).tokens,
            final(self).listing_owners == old(self).listing_owners,
            final(self).listings == old(self).listings,
            final(self).last_token_id == old(self).last_token_id,
            final(self).contract_owner == old(self).contract_owner,
    {
        let ghost pre = *old(self);
        let found = find_account(&self.balance_owners, a);
        match found {
            Some(k) => {
                self.balances.set(k, value);
            },
            None => {
                self.balance_owners.push(a.clone());
                self.balances.push(value);
            },
        }
        proof {
            let jm: int = match found {
                Some(k) => k as int,
                None => pre.balance_owners@.len() as int,
            };
            assert(self.balance_owners@[jm]@ == a@);
            assert forall|i: int, j: int|
                0 <= i < self.balance_owners@.len() && 0 <= j < self.balance_owners@.len() && i != j
                implies self.balance_owners@[i]@ != self.balance_owners@[j]@ by {
                if found is None {
                    if i == jm {
                        assert(pre.balance_owners@[j]@ != a@);
                    } else if j == jm {
                        assert(pre.balance_owners@[i]@ != a@);
                    }
                }
            }
            assert forall|id: int| 1 <= id <= self.last_token_id implies #[trigger] self.is_listed(id) by {
                assert(pre.is_listed(id));
                let k = choose|k: int|
                    0 <= k < pre.listings@.len() && pre.listing_owners@[k]@ == pre.tokens@[id - 1].owner_id@
                        && pre.listings@[k]@.contains(id as TokenId);
                assert(self.listings == pre.listings);
                assert(self.listing_owners == pre.listing_owners);
                assert(self.tokens == pre.tokens);
                assert(self.listings@[k]@.contains(id as TokenId));
            }
            assert(self.wf());
            self.lemma_balance_at(jm);
            assert forall|b: Seq<char>| b != a@ implies #[trigger] self.balance_of(b) == pre.balance_of(b) by {
                if exists|j: int| 0 <= j < pre.balance_owners@.len() && pre.balance_owners@[j]@ == b {
                    let j = choose|j: int| 0 <= j < pre.balance_owners@.len() && pre.balance_owners@[j]@ == b;
                    pre.lemma_balance_at(j);
                    self.lemma_balance_at(j);
                } else {
                    assert forall|j: int| 0 <= j < self.balance_owners@.len() implies self.balance_owners@[j]@ != b by {
                        if j < pre.balance_owners@.len() {
                            assert(self.balance_owners@[j] == pre.balance_owners@[j]);
                        }
                    }
                }
            }
        }
    }

    /// The withdrawable balance of `a`.
    fn read_balance(&self, a: &AccountId) -> (r: Balance)
        requires
            self.wf(),
        ensures
            r == self.balance_of(a@),
    {
        match find_account(&self.balance_owners, a) {
            Some(k) => {
                proof {
                    self.lemma_balance_at(k as int);
                }
                self.balances[k]
            },
            None => 0,
        }
    }

    /// Sets the sale status and price of a minted token, leaving its owner
    /// and metadata and every other store as they are.
    fn set_sale(&mut self, token_id: TokenId, status: TokenStatus, price: Balance)
        requires
            old(self).wf(),
            old(self).has_token(token_id as int),
        ensures
            final(self).wf(),
            final(self).token(token_id as int) == (TokenView {
                status,
                price,
                ..old(self).token(token_id as int)
            }),
            forall|id: int|
                old(self).has_token(id) && id != token_id ==> final(self).token(id) == old(self).token(id),
            final(self).listing_owners == old(self).listing_owners,
            final(self).listings == old(self).listings,
            final(self).balance_owners == old(self).balance_owners,
            final(self).balances == old(self).balances,
            final(self).last_token_id == old(self).last_token_id,
            final(self).contract_owner == old(self).contract_owner,
    {
        let ghost pre = *old(self);
        proof {
            self.lemma_token_slot();
        }
        let idx = (token_id - 1) as usize;
        let t = &self.tokens[idx];
        let updated = TokenData {
            owner_id: t.owner_id.clone(),
            status,
            price,
            metadata: t.metadata.clone(),
            token_id: t.token_id,
        };
        self.tokens.set(idx, updated);
        proof {
            assert forall|i: int| 0 <= i < self.tokens@.len() implies #[trigger] self.tokens@[i].token_id == i + 1 by {
                assert(pre.tokens@[i].token_id == i + 1);
            }
            assert forall|k: int, j: int|
                0 <= k < self.listings@.len() && 0 <= j < self.listings@[k]@.len() implies {
                    let id = #[trigger] self.listings@[k]@[j];
                    &&& 1 <= id <= self.last_token_id
                    &&& self.tokens@[id - 1].owner_id@ == self.listing_owners@[k]@
                } by {
                let id = pre.listings@[k]@[j];
                assert(1 <= id <= pre.last_token_id);
            }
            assert forall|id: int| 1 <= id <= self.last_token_id implies #[trigger] self.is_listed(id) by {
                assert(pre.is_listed(id));
                assert(self.tokens@[id - 1].owner_id@ == pre.tokens@[id - 1].owner_id@);
            }
            assert(self.wf());
        }
    }

    /// Whether `token_id` does not lie beyond the last minted id.
    fn is_valid_token_id(&self, token_id: TokenId) -> (r: bool)
        ensures
            r == (token_id <= self.last_id()),
    {
        token_id <= self.last_token_id
    }

    /// Offers token `token_id` for sale at `price`. Only the owner may do
    /// so, and `attached` must be exactly the listing fee. Setting a new
    /// price on a token already for sale is allowed.
    pub fn set_price(&mut self, token_id: TokenId, price: Balance, caller: AccountId, attached: Balance) -> (r: Result<(), LedgerError>)
        requires
            old(self).wf(),
        ensures
            listings_partition(*final(self)),
            final(self).wf(),
            !old(self).has_token(token_id as int) ==> r == Err::<(), LedgerError>(LedgerError::NotFound),
            old(self).has_token(token_id as int) && caller@ != old(self).token(token_id as int).owner_id
                ==> r == Err::<(), LedgerError>(LedgerError::Unauthorized),
            old(self).has_token(token_id as int) && caller@ == old(self).token(token_id as int).owner_id
                && attached != OTHER_FEE ==> r == Err::<(), LedgerError>(LedgerError::PaymentMismatch),
            old(self).has_token(token_id as int) && caller@ == old(self).token(token_id as int).owner_id
                && attached == OTHER_FEE ==> r is Ok,
            r is Err ==> *final(self) == *old(self),
            r is Ok ==> priced(*old(self), *final(self), token_id, price),
    {
        proof {
            self.lemma_listing_partition();
        }
        if token_id == 0 || token_id > self.last_token_id {
            return Err(LedgerError::NotFound);
        }
        proof {
            self.lemma_token_slot();
        }
        if self.tokens[(token_id - 1) as usize].owner_id != caller {
            return Err(LedgerError::Unauthorized);
        }
        if attached != OTHER_FEE {
            return Err(LedgerError::PaymentMismatch);
        }
        let ghost pre = *self;
        self.set_sale(token_id, TokenStatus::ForSale, price);
        proof {
            assert forall|a: Seq<char>| #[trigger] self.listing_of(a) == pre.listing_of(a) by {}
            assert forall|a: Seq<char>| #[trigger] self.balance_of(a) == pre.balance_of(a) by {}
        }
        proof {
            self.lemma_listing_partition();
        }
        Ok(())
    }

    /// Buys token `token_id` for `buyer`, who attached `paid`. The token
    /// must be for sale and `paid` must be exactly its price. The price is
    /// credited to the seller, the token is taken off sale (its price is
    /// kept but no longer means anything), and it moves to the buyer.
    pub fn purchase(&mut self, token_id: TokenId, buyer: AccountId, paid: Balance) -> (r: Result<(), LedgerError>)
        requires
            old(self).wf(),
            old(self).has_token(token_id as int) && old(self).token(token_id as int).status == TokenStatus::ForSale
                && paid == old(self).token(token_id as int).price ==> old(self).balance_of(
                old(self).token(token_id as int).owner_id,
            ) + old(self).token(token_id as int).price <= u128::MAX,
        ensures
            listings_partition(*final(self)),
            final(self).wf(),
            !old(self).has_token(token_id as int) ==> r == Err::<(), LedgerError>(LedgerError::NotFound),
            old(self).has_token(token_id as int) && old(self).token(token_id as int).status != TokenStatus::ForSale
                ==> r == Err::<(), LedgerError>(LedgerError::NotForSale),
            old(self).has_token(token_id as int) && old(self).token(token_id as int).status == TokenStatus::ForSale
                && paid != old(self).token(token_id as int).price
                ==> r == Err::<(), LedgerError>(LedgerError::PaymentMismatch),
            old(self).has_token(token_id as int) && old(self).token(token_id as int).status == TokenStatus::ForSale
                && paid == old(self).token(token_id as int).price ==> r is Ok,
            r is Err ==> *final(self) == *old(self),
            r is Ok ==> sold(*old(self), *final(self), token_id, buyer@),
    {
        proof {
            self.lemma_listing_partition();
        }
        if token_id == 0 || token_id > self.last_token_id {
            return Err(LedgerError::NotFound);
        }
        proof {
            self.lemma_token_slot();
        }
        let idx = (token_id - 1) as usize;
        if self.tokens[idx].status != TokenStatus::ForSale {
            return Err(LedgerError::NotForSale);
        }
        let price = self.tokens[idx].price;
        if paid != price {
            return Err(LedgerError::PaymentMismatch);
        }
        let ghost pre = *self;
        let seller = self.tokens[idx].owner_id.clone();
        let owed = self.read_balance(&seller);
        self.set_balance(&seller, owed + price);
        let ghost credited = *self;
        self.set_sale(token_id, TokenStatus::NotForSale, price);
        let ghost mid = *self;
        proof {
            assert(mid.balance_owners == credited.balance_owners && mid.balances == credited.balances);
            assert forall|a: Seq<char>| #[trigger] mid.balance_of(a) == credited.balance_of(a) by {}
            assert forall|a: Seq<char>| #[trigger] mid.listing_of(a) == pre.listing_of(a) by {}
            assert(mid.token(token_id as int).owner_id == seller@);
        }
        self.transfer(buyer, token_id);
        proof {
            assert forall|a: Seq<char>| a != seller@ implies #[trigger] self.balance_of(a) == pre.balance_of(a) by {
                assert(credited.balance_of(a) == pre.balance_of(a));
            }
            assert(self.balance_of(seller@) == mid.balance_of(seller@));
        }
        proof {
            self.lemma_listing_partition();
        }
        Ok(())
    }

    /// Moves token `token_id` to `receiver_id`. Only the owner may do so.
    /// The token keeps its status and price.
    pub fn transfer_token(&mut self, receiver_id: AccountId, token_id: TokenId, caller: AccountId) -> (r: Result<(), LedgerError>)
        requires
            old(self).wf(),
        ensures
            listings_partition(*final(self)),
            final(self).wf(),
            !old(self).has_token(token_id as int) ==> r == Err::<(), LedgerError>(LedgerError::NotFound),
            old(self).has_token(token_id as int) && caller@ != old(self).token(token_id as int).owner_id
                ==> r == Err::<(), LedgerError>(LedgerError::Unauthorized),
            old(self).has_token(token_id as int) && caller@ == old(self).token(token_id as int).owner_id ==> r is Ok,
            r is Err ==> *final(self) == *old(self),
            r is Ok ==> moved_to(*old(self), *final(self), token_id, receiver_id@),
    {
        proof {
            self.lemma_listing_partition();
        }
        if token_id == 0 || token_id > self.last_token_id {
            return Err(LedgerError::NotFound);
        }
        proof {
            self.lemma_token_slot();
        }
        if self.tokens[(token_id - 1) as usize].owner_id != caller {
            return Err(LedgerError::Unauthorized);
        }
        if !self.is_valid_token_id(token_id) {
            return Err(LedgerError::InvalidId);
        }
        self.transfer(receiver_id, token_id);
        proof {
            self.lemma_listing_partition();
        }
        Ok(())
    }

    /// Pays out the proceeds of `caller`, who attached `attached`, which
    /// must be exactly the withdrawal fee. The balance is zeroed here, at
    /// once, and the amount is returned for the host to send to the caller:
    /// the ledger does not learn whether that payment succeeds.
    pub fn withdraw(&mut self, caller: AccountId, attached: Balance) -> (r: Result<Balance, LedgerError>)
        requires
            old(self).wf(),
        ensures
            listings_partition(*final(self)),
            final(self).wf(),
            withdraw_outcome(*old(self), *final(self), caller@, attached, r),
    {
        proof {
            self.lemma_listing_partition();
        }
        if attached != OTHER_FEE {
            return Err(LedgerError::PaymentMismatch);
        }
        let owed = self.read_balance(&caller);
        if owed == 0 {
            return Err(LedgerError::NothingToWithdraw);
        }
        let ghost pre = *self;
        self.set_balance(&caller, 0);
        proof {
            assert forall|a: Seq<char>| #[trigger] self.listing_of(a) == pre.listing_of(a) by {}
        }
        proof {
            self.lemma_listing_partition();
        }
        Ok(owed)
    }

    /// The record of token `token_id`.
    pub fn get_token_data(&self, token_id: TokenId) -> (r: Result<TokenData, LedgerError>)
        requires
            self.wf(),
        ensures
            listings_partition(*self),
            self.has_token(token_id as int) ==> r is Ok && r->Ok_0@ == self.token(token_id as int),
            !self.has_token(token_id as int) ==> r == Err::<TokenData, LedgerError>(LedgerError::NotFound),
    {
        proof {
            self.lemma_listing_partition();
        }
        if token_id == 0 || token_id > self.last_token_id {
            return Err(LedgerError::NotFound);
        }
        proof {
            self.lemma_token_slot();
        }
        Ok(self.tokens[(token_id - 1) as usize].duplicate())
    }

    /// The proceeds that `owner_id` may withdraw; 0 if none.
    pub fn get_balance(&self, owner_id: AccountId) -> (r: Balance)
        requires
            self.wf(),
        ensures
            listings_partition(*self),
            r == self.balance_of(owner_id@),
    {
        proof {
            self.lemma_listing_partition();
        }
        self.read_balance(&owner_id)
    }

    /// The tokens that `owner_id` owns, in the order in which they came to
    /// it; empty if none.
    pub fn get_listing(&self, owner_id: AccountId) -> (r: Vec<TokenId>)
        requires
            self.wf(),
        ensures
            listings_partition(*self),
            r@ == self.listing_of(owner_id@),
    {
        proof {
            self.lemma_listing_partition();
        }
        match find_account(&self.listing_owners, &owner_id) {
            Some(k) => {
                proof {
                    self.lemma_listing_at(k as int);
                }
                copy_ids(&self.listings[k])
            },
            None => {
                proof {
                    self.lemma_no_listing(owner_id@);
                }
                Vec::new()
            },
        }
    }

    /// The records of the tokens among ids `1..=n` that are for sale, by id.
    pub open spec fn for_sale_upto(&self, n: nat) -> Seq<TokenView>
        decreases n,
    {
        if n == 0 {
            Seq::empty()
        } else {
            let before = self.for_sale_upto((n - 1) as nat);
            if self.token(n as int).status == TokenStatus::ForSale {
                before.push(self.token(n as int))
            } else {
                before
            }
        }
    }

    /// The records of all tokens that are for sale, by id.
    pub fn get_market_listing(&self) -> (r: Vec<TokenData>)
        requires
            self.wf(),
        ensures
            listings_partition(*self),
            r@.len() == self.for_sale_upto(self.last_id()).len(),
            forall|i: int| 0 <= i < r@.len() ==> #[trigger] r@[i]@ == self.for_sale_upto(self.last_id())[i],
    {
        proof {
            self.lemma_listing_partition();
        }
        let mut result: Vec<TokenData> = Vec::new();
        let n = self.tokens.len();
        let mut i: usize = 0;
        while i < n
            invariant
                n == self.tokens@.len(),
                n == self.last_id(),
                i <= n,
                result@.len() == self.for_sale_upto(i as nat).len(),
                forall|j: int| 0 <= j < result@.len() ==> #[trigger] result@[j]@ == self.for_sale_upto(i as nat)[j],
            decreases n - i,
        {
            let data = &self.tokens[i];
            if data.status == TokenStatus::ForSale {
                result.push(data.duplicate());
            }
            i = i + 1;
        }
        result
    }

    /// In a well-formed ledger the listings partition the minted tokens.
    pub proof fn lemma_listing_partition(&self)
        requires
            self.wf(),
        ensures
            listings_partition(*self),
    {
        assert forall|id: int| self.has_token(id) implies #[trigger] self.token(id).token_id == id by {
            assert(self.tokens@[id - 1].token_id == id);
        }
        assert forall|id: TokenId| self.has_token(id as int) implies #[trigger] self.listing_of(
            self.token(id as int).owner_id,
        ).contains(id) by {
            assert(self.is_listed(id as int));
            let k = choose|k: int|
                0 <= k < self.listings@.len() && self.listing_owners@[k]@ == self.tokens@[id - 1].owner_id@
                    && self.listings@[k]@.contains(id);
            self.lemma_listing_at(k);
        }
        assert forall|a: Seq<char>, i: int| 0 <= i < self.listing_of(a).len() implies {
            let id = #[trigger] self.listing_of(a)[i];
            &&& self.has_token(id as int)
            &&& self.token(id as int).owner_id == a
        } by {
            if exists|k: int| 0 <= k < self.listing_owners@.len() && self.listing_owners@[k]@ == a {
                let k = choose|k: int| 0 <= k < self.listing_owners@.len() && self.listing_owners@[k]@ == a;
                self.lemma_listing_at(k);
                let id = self.listings@[k]@[i];
                assert(1 <= id <= self.last_token_id);
            }
        }
        assert forall|a: Seq<char>| #[trigger] self.listing_of(a).no_duplicates() by {
            if exists|k: int| 0 <= k < self.listing_owners@.len() && self.listing_owners@[k]@ == a {
                let k = choose|k: int| 0 <= k < self.listing_owners@.len() && self.listing_owners@[k]@ == a;
                self.lemma_listing_at(k);
                assert(self.listings@[k]@.no_duplicates());
            }
        }
    }

    /// The last token id handed out; 0 before the first mint.
    pub fn last_token_id(&self) -> (r: TokenId)
        ensures
            r == self.last_id(),
    {
        self.last_token_id
    }
}

} // verus!
