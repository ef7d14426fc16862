//! Tests of the token ledger, wallets and liquidity pools.

use dag::errors::TokenError;
use dag::pool::{LiquidityPool, SwapRequest, TransferRequest};
use dag::token::Token;
use dag::wallet::Wallet;

#[test]
fn token_mint_transfer_burn() {
    let mut token = Token::new("Example".to_string(), "EXM".to_string(), 1000, 8);
    assert_eq!(token.name, "Example");
    assert_eq!(token.symbol, "EXM");
    assert_eq!(token.total_supply, 1000);
    assert_eq!(token.decimals, 8);

    token.mint("alice".to_string(), 500).unwrap();
    assert_eq!(token.total_supply, 1500);

    token.transfer("alice".to_string(), "bob".to_string(), 200).unwrap();
    let balances: Vec<(String, u64)> = token.balances.clone();
    assert!(balances.contains(&("alice".to_string(), 300)));
    assert!(balances.contains(&("bob".to_string(), 200)));

    token.burn("bob".to_string(), 50).unwrap();
    assert_eq!(token.total_supply, 1450);
}

#[test]
fn token_transfer_errors() {
    let mut token = Token::new("Example".to_string(), "EXM".to_string(), 0, 0);
    assert_eq!(
        token.transfer("nobody".to_string(), "bob".to_string(), 1),
        Err(TokenError::AccountNotFound)
    );
    token.mint("alice".to_string(), 10).unwrap();
    assert_eq!(
        token.transfer("alice".to_string(), "bob".to_string(), 11),
        Err(TokenError::InsufficientBalance)
    );
    assert_eq!(token.transfer("alice".to_string(), "bob".to_string(), 10), Ok(()));
}

#[test]
fn token_burn_errors() {
    let mut token = Token::new("Example".to_string(), "EXM".to_string(), 100, 0);
    assert_eq!(
        token.burn("nobody".to_string(), 1),
        Err(TokenError::AccountNotFound)
    );
    token.mint("alice".to_string(), 5).unwrap();
    assert_eq!(token.burn("alice".to_string(), 6), Err(TokenError::InsufficientBalance));
}

#[test]
fn wallet_update_balances() {
    let mut wallet = Wallet::new("test-private-key".to_string());
    assert_eq!(wallet.address.len(), 36);

    // A positive adjustment is applied, creating the entry.
    wallet.update_balances("GOLD", 10);
    assert_eq!(wallet.balance_of(&"GOLD".to_string()), Some(10));

    // A negative adjustment that stays at or above zero is applied.
    wallet.update_balances("GOLD", -4);
    assert_eq!(wallet.balance_of(&"GOLD".to_string()), Some(6));

    // One that would go negative is skipped.
    wallet.update_balances("GOLD", -7);
    assert_eq!(wallet.balance_of(&"GOLD".to_string()), Some(6));

    // Even a skipped adjustment creates the entry at zero.
    wallet.update_balances("SILVER", -1);
    assert_eq!(wallet.balance_of(&"SILVER".to_string()), Some(0));
}

#[test]
fn wallet_withdraw_deposit_swap() {
    let mut wallet = Wallet::new("test-private-key".to_string());
    let gold = "GOLD".to_string();
    let silver = "SILVER".to_string();

    wallet.deposit(&gold, 100);
    assert!(wallet.withdraw(&gold, 30));
    assert_eq!(wallet.balance_of(&gold), Some(70));
    assert!(!wallet.withdraw(&gold, 71));
    assert_eq!(wallet.balance_of(&gold), Some(70));

    assert!(wallet.swap(&gold, &silver, 20));
    assert_eq!(wallet.balance_of(&gold), Some(50));
    assert_eq!(wallet.balance_of(&silver), Some(20));
    assert!(!wallet.swap(&silver, &gold, 21));
}

#[test]
fn liquidity_pool_reserves() {
    let mut pool = LiquidityPool::new("USD".to_string(), "STABLECOIN".to_string());
    assert_eq!(pool.reserves_a, 0);
    assert_eq!(pool.reserves_b, 0);
    pool.add_liquidity(100, 200);
    pool.add_liquidity(1, 2);
    assert_eq!(pool.token_a, "USD");
    assert_eq!(pool.token_b, "STABLECOIN");
    assert_eq!(pool.reserves_a, 101);
    assert_eq!(pool.reserves_b, 202);
}

#[test]
fn request_records_hold_their_fields() {
    let t = TransferRequest {
        from: "w1".to_string(),
        to: "w2".to_string(),
        token: "GOLD".to_string(),
        amount: 5,
    };
    assert_eq!(t.amount, 5);
    let s = SwapRequest {
        address: "w1".to_string(),
        from_token: "GOLD".to_string(),
        to_token: "SILVER".to_string(),
        amount: 9,
    };
    assert_eq!(s.to_token, "SILVER");
}

#[test]
fn token_self_transfer_keeps_balance() {
    let mut token = Token::new("Example".to_string(), "EXM".to_string(), 0, 0);
    token.mint("alice".to_string(), 10).unwrap();
    token.transfer("alice".to_string(), "alice".to_string(), 4).unwrap();
    assert!(token.balances.contains(&("alice".to_string(), 10)));
}
