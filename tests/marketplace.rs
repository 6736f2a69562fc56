use nft_market::token::{MINT_FEE, OTHER_FEE};
use nft_market::{AccountId, Balance, Contract, LedgerError, TokenMetadata, TokenStatus};

fn accounts(id: usize) -> AccountId {
    ["alice", "bob", "charlie", "danny", "eugene", "fargo"][id].to_string()
}

fn get_metadata() -> TokenMetadata {
    "urltesting".to_string()
}

const TEN_NEAR: Balance = 100_000_000_000_000_000_000_000_000;

fn mint_n(contract: &mut Contract, owner: usize, n: usize) -> Vec<u64> {
    let mut ids = Vec::new();
    for _ in 0..n {
        ids.push(contract.mint_token(accounts(owner), get_metadata(), MINT_FEE).unwrap());
    }
    ids
}

#[test]
fn test_mint_token() {
    let mut contract = Contract::new(accounts(0));
    for _ in 0..4 {
        contract.mint_token(accounts(0), get_metadata(), MINT_FEE).unwrap();
    }
    for _ in 0..4 {
        contract.mint_token(accounts(1), get_metadata(), MINT_FEE).unwrap();
    }
    let acc0_listing = contract.get_listing(accounts(0));
    let acc1_listing = contract.get_listing(accounts(1));

    assert_eq!(acc0_listing, vec![1, 2, 3, 4]);
    assert_eq!(acc1_listing, vec![5, 6, 7, 8]);
}

#[test]
fn test_transfer_function() {
    let mut contract = Contract::new(accounts(0));
    for _ in 0..3 {
        contract.mint_token(accounts(0), get_metadata(), MINT_FEE).unwrap();
    }

    contract.transfer_token(accounts(1), 1, accounts(0)).unwrap();
    contract.transfer_token(accounts(1), 2, accounts(0)).unwrap();
    let owner_listing = contract.get_listing(accounts(0));
    let receiver_listing = contract.get_listing(accounts(1));
    assert_eq!(owner_listing, vec![3]);
    assert_eq!(receiver_listing, vec![1, 2]);
}

#[test]
fn test_purchase_token() {
    let mut contract = Contract::new(accounts(0));
    for _ in 0..3 {
        contract.mint_token(accounts(0), get_metadata(), MINT_FEE).unwrap();
    }

    contract.transfer_token(accounts(1), 1, accounts(0)).unwrap();
    contract.transfer_token(accounts(1), 2, accounts(0)).unwrap();
    contract.set_price(1, TEN_NEAR, accounts(1), OTHER_FEE).unwrap();

    contract.purchase(1, accounts(0), TEN_NEAR).unwrap();

    let acc0_listing = contract.get_listing(accounts(0));
    let acc1_listing = contract.get_listing(accounts(1));
    assert_eq!(acc0_listing, vec![3, 1]);
    assert_eq!(acc1_listing, vec![2]);

    let acc0_balance = contract.get_balance(accounts(0));
    let acc1_balance = contract.get_balance(accounts(1));
    assert_eq!(acc0_balance, 0);
    assert_eq!(acc1_balance, TEN_NEAR);
}

#[test]
fn mint_hands_out_consecutive_ids() {
    let mut contract = Contract::new(accounts(0));
    let mut ids = Vec::new();
    for i in 0..6 {
        ids.push(contract.mint_token(accounts(i % 3), get_metadata(), MINT_FEE).unwrap());
    }
    assert_eq!(ids, vec![1, 2, 3, 4, 5, 6]);
    assert_eq!(contract.last_token_id(), 6);
    assert_eq!(contract.get_listing(accounts(0)), vec![1, 4]);
    assert_eq!(contract.get_listing(accounts(1)), vec![2, 5]);
    assert_eq!(contract.get_listing(accounts(2)), vec![3, 6]);
}

#[test]
fn minted_token_record() {
    let mut contract = Contract::new(accounts(0));
    let id = contract.mint_token(accounts(2), "ipfs://cat".to_string(), MINT_FEE).unwrap();
    let data = contract.get_token_data(id).unwrap();
    assert_eq!(data.owner_id, "charlie");
    assert_eq!(data.status, TokenStatus::NotForSale);
    assert_eq!(data.price, 0);
    assert_eq!(data.metadata, "ipfs://cat");
    assert_eq!(data.token_id, 1);
}

#[test]
fn mint_with_wrong_fee_is_rejected() {
    let mut contract = Contract::new(accounts(0));
    assert_eq!(
        contract.mint_token(accounts(0), get_metadata(), MINT_FEE - 1),
        Err(LedgerError::PaymentMismatch)
    );
    assert_eq!(contract.last_token_id(), 0);
    assert_eq!(contract.get_listing(accounts(0)), Vec::<u64>::new());
}

#[test]
fn listings_partition_minted_tokens() {
    let mut contract = Contract::new(accounts(0));
    mint_n(&mut contract, 0, 3);
    mint_n(&mut contract, 1, 2);
    contract.transfer_token(accounts(2), 2, accounts(0)).unwrap();
    contract.set_price(4, 7, accounts(1), OTHER_FEE).unwrap();
    contract.purchase(4, accounts(0), 7).unwrap();
    contract.transfer_token(accounts(1), 1, accounts(0)).unwrap();

    let mut all: Vec<u64> = Vec::new();
    for a in 0..4 {
        let listing = contract.get_listing(accounts(a));
        for id in &listing {
            assert_eq!(contract.get_token_data(*id).unwrap().owner_id, accounts(a));
        }
        all.extend(listing);
    }
    all.sort();
    assert_eq!(all, vec![1, 2, 3, 4, 5]);
}

#[test]
fn transfer_there_and_back() {
    let mut contract = Contract::new(accounts(0));
    mint_n(&mut contract, 0, 3);
    mint_n(&mut contract, 1, 1);
    contract.transfer_token(accounts(1), 2, accounts(0)).unwrap();
    assert_eq!(contract.get_listing(accounts(1)), vec![4, 2]);
    contract.transfer_token(accounts(0), 2, accounts(1)).unwrap();
    assert_eq!(contract.get_listing(accounts(0)), vec![1, 3, 2]);
    assert_eq!(contract.get_listing(accounts(1)), vec![4]);
    assert_eq!(contract.get_balance(accounts(0)), 0);
    assert_eq!(contract.get_balance(accounts(1)), 0);
}

#[test]
fn transfer_keeps_sale_status() {
    let mut contract = Contract::new(accounts(0));
    mint_n(&mut contract, 0, 1);
    contract.set_price(1, 50, accounts(0), OTHER_FEE).unwrap();
    contract.transfer_token(accounts(1), 1, accounts(0)).unwrap();
    let data = contract.get_token_data(1).unwrap();
    assert_eq!(data.owner_id, "bob");
    assert_eq!(data.status, TokenStatus::ForSale);
    assert_eq!(data.price, 50);
}

#[test]
fn transfer_to_self_moves_token_to_end() {
    let mut contract = Contract::new(accounts(0));
    mint_n(&mut contract, 0, 3);
    contract.transfer_token(accounts(0), 1, accounts(0)).unwrap();
    assert_eq!(contract.get_listing(accounts(0)), vec![2, 3, 1]);
}

#[test]
fn sale_credits_seller() {
    let mut contract = Contract::new(accounts(0));
    let id = contract.mint_token(accounts(0), get_metadata(), MINT_FEE).unwrap();
    contract.set_price(id, 1234, accounts(0), OTHER_FEE).unwrap();
    contract.purchase(id, accounts(1), 1234).unwrap();
    assert_eq!(contract.get_balance(accounts(0)), 1234);
    assert_eq!(contract.get_balance(accounts(1)), 0);
    let data = contract.get_token_data(id).unwrap();
    assert_eq!(data.status, TokenStatus::NotForSale);
    assert_eq!(data.owner_id, "bob");
    assert_eq!(contract.get_listing(accounts(1)), vec![1]);
    assert_eq!(contract.get_listing(accounts(0)), Vec::<u64>::new());
}

#[test]
fn second_sale_adds_to_balance() {
    let mut contract = Contract::new(accounts(0));
    mint_n(&mut contract, 0, 2);
    contract.set_price(1, 10, accounts(0), OTHER_FEE).unwrap();
    contract.set_price(2, 32, accounts(0), OTHER_FEE).unwrap();
    contract.purchase(1, accounts(1), 10).unwrap();
    contract.purchase(2, accounts(2), 32).unwrap();
    assert_eq!(contract.get_balance(accounts(0)), 42);
}

#[test]
fn payment_mismatch_changes_nothing() {
    let mut contract = Contract::new(accounts(0));
    mint_n(&mut contract, 0, 1);
    contract.set_price(1, 100, accounts(0), OTHER_FEE).unwrap();
    assert_eq!(contract.purchase(1, accounts(1), 99), Err(LedgerError::PaymentMismatch));
    assert_eq!(contract.purchase(1, accounts(1), 101), Err(LedgerError::PaymentMismatch));
    let data = contract.get_token_data(1).unwrap();
    assert_eq!(data.owner_id, "alice");
    assert_eq!(data.status, TokenStatus::ForSale);
    assert_eq!(data.price, 100);
    assert_eq!(contract.get_listing(accounts(0)), vec![1]);
    assert_eq!(contract.get_listing(accounts(1)), Vec::<u64>::new());
    assert_eq!(contract.get_balance(accounts(0)), 0);
}

#[test]
fn purchase_of_unlisted_token_fails() {
    let mut contract = Contract::new(accounts(0));
    mint_n(&mut contract, 0, 1);
    assert_eq!(contract.purchase(1, accounts(1), 0), Err(LedgerError::NotForSale));
    contract.set_price(1, 5, accounts(0), OTHER_FEE).unwrap();
    contract.purchase(1, accounts(1), 5).unwrap();
    assert_eq!(contract.purchase(1, accounts(2), 5), Err(LedgerError::NotForSale));
}

#[test]
fn unknown_token_is_not_found() {
    let mut contract = Contract::new(accounts(0));
    mint_n(&mut contract, 0, 2);
    assert!(matches!(contract.get_token_data(0), Err(LedgerError::NotFound)));
    assert!(matches!(contract.get_token_data(3), Err(LedgerError::NotFound)));
    assert_eq!(contract.set_price(3, 1, accounts(0), OTHER_FEE), Err(LedgerError::NotFound));
    assert_eq!(contract.purchase(9, accounts(0), 0), Err(LedgerError::NotFound));
    assert_eq!(contract.transfer_token(accounts(1), 3, accounts(0)), Err(LedgerError::NotFound));
}

#[test]
fn only_owner_may_price_or_transfer() {
    let mut contract = Contract::new(accounts(0));
    mint_n(&mut contract, 0, 1);
    assert_eq!(contract.set_price(1, 5, accounts(1), OTHER_FEE), Err(LedgerError::Unauthorized));
    assert_eq!(contract.transfer_token(accounts(1), 1, accounts(1)), Err(LedgerError::Unauthorized));
    assert_eq!(contract.get_token_data(1).unwrap().status, TokenStatus::NotForSale);
    assert_eq!(contract.get_listing(accounts(0)), vec![1]);
}

#[test]
fn set_price_needs_fee_and_can_be_repeated() {
    let mut contract = Contract::new(accounts(0));
    mint_n(&mut contract, 0, 1);
    assert_eq!(contract.set_price(1, 5, accounts(0), 0), Err(LedgerError::PaymentMismatch));
    assert_eq!(contract.get_token_data(1).unwrap().status, TokenStatus::NotForSale);
    contract.set_price(1, 5, accounts(0), OTHER_FEE).unwrap();
    contract.set_price(1, 8, accounts(0), OTHER_FEE).unwrap();
    let data = contract.get_token_data(1).unwrap();
    assert_eq!(data.status, TokenStatus::ForSale);
    assert_eq!(data.price, 8);
}

#[test]
fn withdraw_zeroes_balance() {
    let mut contract = Contract::new(accounts(0));
    mint_n(&mut contract, 0, 1);
    contract.set_price(1, TEN_NEAR, accounts(0), OTHER_FEE).unwrap();
    contract.purchase(1, accounts(1), TEN_NEAR).unwrap();
    assert_eq!(contract.withdraw(accounts(0), OTHER_FEE), Ok(TEN_NEAR));
    assert_eq!(contract.get_balance(accounts(0)), 0);
    assert_eq!(contract.withdraw(accounts(0), OTHER_FEE), Err(LedgerError::NothingToWithdraw));
}

#[test]
fn withdraw_needs_fee_and_balance() {
    let mut contract = Contract::new(accounts(0));
    assert_eq!(contract.withdraw(accounts(0), OTHER_FEE), Err(LedgerError::NothingToWithdraw));
    mint_n(&mut contract, 0, 1);
    contract.set_price(1, 3, accounts(0), OTHER_FEE).unwrap();
    contract.purchase(1, accounts(1), 3).unwrap();
    assert_eq!(contract.withdraw(accounts(0), OTHER_FEE + 1), Err(LedgerError::PaymentMismatch));
    assert_eq!(contract.get_balance(accounts(0)), 3);
}

#[test]
fn concrete_mint_and_transfer_scenario() {
    let mut contract = Contract::new(accounts(0));
    mint_n(&mut contract, 0, 4);
    mint_n(&mut contract, 1, 4);
    assert_eq!(contract.get_listing(accounts(0)), vec![1, 2, 3, 4]);
    assert_eq!(contract.get_listing(accounts(1)), vec![5, 6, 7, 8]);
    contract.transfer_token(accounts(1), 1, accounts(0)).unwrap();
    contract.transfer_token(accounts(1), 2, accounts(0)).unwrap();
    assert_eq!(contract.get_listing(accounts(0)), vec![3, 4]);
    assert_eq!(contract.get_listing(accounts(1)), vec![5, 6, 7, 8, 1, 2]);
}

#[test]
fn market_listing_shows_tokens_for_sale_by_id() {
    let mut contract = Contract::new(accounts(0));
    assert!(contract.get_market_listing().is_empty());
    mint_n(&mut contract, 0, 3);
    mint_n(&mut contract, 1, 2);
    contract.set_price(5, 9, accounts(1), OTHER_FEE).unwrap();
    contract.set_price(2, 4, accounts(0), OTHER_FEE).unwrap();
    contract.set_price(3, 1, accounts(0), OTHER_FEE).unwrap();
    contract.purchase(3, accounts(2), 1).unwrap();
    let market = contract.get_market_listing();
    let ids: Vec<u64> = market.iter().map(|t| t.token_id).collect();
    assert_eq!(ids, vec![2, 5]);
    assert_eq!(market[0].price, 4);
    assert_eq!(market[1].owner_id, "bob");
}

#[test]
fn fresh_ledger_is_empty() {
    let contract = Contract::new(accounts(0));
    assert_eq!(contract.last_token_id(), 0);
    assert_eq!(contract.get_balance(accounts(3)), 0);
    assert_eq!(contract.get_listing(accounts(3)), Vec::<u64>::new());
}

#[test]
fn mismatch_on_largest_price_is_rejected() {
    let mut contract = Contract::new(accounts(0));
    mint_n(&mut contract, 0, 2);
    contract.set_price(1, u128::MAX, accounts(0), OTHER_FEE).unwrap();
    contract.set_price(2, u128::MAX, accounts(0), OTHER_FEE).unwrap();
    contract.purchase(1, accounts(1), u128::MAX).unwrap();
    assert_eq!(contract.get_balance(accounts(0)), u128::MAX);
    assert_eq!(contract.purchase(2, accounts(1), 1), Err(LedgerError::PaymentMismatch));
    assert_eq!(contract.purchase(1, accounts(0), u128::MAX), Err(LedgerError::NotForSale));
    assert_eq!(contract.get_balance(accounts(0)), u128::MAX);
    assert_eq!(contract.get_listing(accounts(1)), vec![1]);
}

#[test]
fn market_records_carry_their_ids() {
    let mut contract = Contract::new(accounts(0));
    mint_n(&mut contract, 0, 4);
    contract.set_price(3, 77, accounts(0), OTHER_FEE).unwrap();
    let market = contract.get_market_listing();
    assert_eq!(market.len(), 1);
    assert_eq!(market[0].token_id, 3);
    assert_eq!(market[0].price, 77);
    assert_eq!(contract.get_token_data(market[0].token_id).unwrap().price, 77);
}
