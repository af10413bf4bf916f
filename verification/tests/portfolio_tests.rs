use coin_tax::portfolio::add_new_asset_to_portfolio;
use coin_tax::portfolio::add_to_portfolio;
use coin_tax::portfolio::AssetHistory;
use coin_tax::portfolio::Portfolio;
use coin_tax::transaction::CoinConversion;
use coin_tax::transaction::Transaction;
use coin_tax::transaction::TransactionType;

fn account<'a>(portfolio: &'a Portfolio, name: &str) -> &'a AssetHistory {
    portfolio
        .accounts
        .iter()
        .find(|a| a.name == name)
        .expect("account should exist")
}

fn simple(timestamp: i64, action: TransactionType, asset: &str, quantity: i64) -> Transaction {
    Transaction {
        timestamp,
        action,
        asset: String::from(asset),
        quantity,
        price: 0,
        conversion_to: None,
    }
}

#[test]
fn test_add_new_asset_to_portfolio() {
    let test_portfolio = Portfolio::new();

    let asset_to_add = "BTC";

    let test_portfolio = add_new_asset_to_portfolio(test_portfolio, asset_to_add);

    assert!(test_portfolio.contains_asset(asset_to_add))
}

#[test]
fn test_asset_history_push_into_history() {
    let mut test_asset = AssetHistory::new(String::from("BTC"));

    let test_transaction = Transaction {
        timestamp: 123456789,
        asset: String::from("BTC"),
        action: TransactionType::Sell,
        price: 100_000_000_000,
        quantity: 1_230_000_000,
        conversion_to: None,
    };

    test_asset.push_into_history(test_transaction);

    assert!(test_asset.history.len() == 1);
}

#[test]
fn test_add_transaction_to_asset() {
    let mut test_asset = AssetHistory::new(String::from("BTC"));

    let test_transaction = Transaction {
        timestamp: 123456789,
        asset: String::from("BTC"),
        action: TransactionType::Sell,
        price: 100_000_000_000,
        quantity: 1_230_000_000,
        conversion_to: None,
    };

    test_asset.add_transaction_to_asset(test_transaction);

    assert_eq!(test_asset.quantity, -1_230_000_000);
    assert_eq!(test_asset.history.len(), 1);
}

#[test]
fn test_lazy_account_creation_is_idempotent() {
    let portfolio = Portfolio::new();
    let portfolio = add_new_asset_to_portfolio(portfolio, "BTC");
    assert_eq!(portfolio.accounts.len(), 1);
    assert_eq!(account(&portfolio, "BTC").quantity, 0);
    assert_eq!(account(&portfolio, "BTC").history.len(), 0);

    let portfolio = add_new_asset_to_portfolio(portfolio, "BTC");
    assert_eq!(portfolio.accounts.len(), 1);
    assert_eq!(account(&portfolio, "BTC").quantity, 0);
}

#[test]
fn test_buy_then_sell_balance() {
    // Buy 0.000919 BTC, then sell 0.0005 BTC: 0.000419 BTC left.
    let portfolio = Portfolio::new();
    let buy = simple(1516678811000, TransactionType::Buy, "BTC", 9_190_000);
    let sell = simple(1516700000000, TransactionType::Sell, "BTC", 5_000_000);

    let portfolio = add_to_portfolio(portfolio, buy).unwrap();
    let portfolio = add_to_portfolio(portfolio, sell).unwrap();

    let btc = account(&portfolio, "BTC");
    assert_eq!(btc.quantity, 4_190_000);
    assert_eq!(btc.history.len(), 2);
    assert!(btc.history[0].timestamp <= btc.history[1].timestamp);
}

#[test]
fn test_convert_updates_both_accounts() {
    // Convert 1641.4065951 XLM into 774.762752 ALGO against an empty ledger.
    let portfolio = Portfolio::new();
    let convert = Transaction {
        timestamp: 1612070447000,
        action: TransactionType::Convert,
        asset: String::from("XLM"),
        quantity: 16_414_065_951_000,
        price: 3_100_000_000,
        conversion_to: Some(CoinConversion {
            name: String::from("ALGO"),
            quantity: 7_747_627_520_000,
        }),
    };

    let portfolio = add_to_portfolio(portfolio, convert).unwrap();

    let xlm = account(&portfolio, "XLM");
    let algo = account(&portfolio, "ALGO");
    assert_eq!(xlm.quantity, -16_414_065_951_000);
    assert_eq!(algo.quantity, 7_747_627_520_000);
    assert_eq!(xlm.history.len(), 1);
    assert_eq!(algo.history.len(), 1);
}

#[test]
fn test_self_conversion_credits_once() {
    // A conversion whose source and destination name the same asset counts
    // as a single credit of the destination-side amount.
    let portfolio = Portfolio::new();
    let convert = Transaction {
        timestamp: 1612070447000,
        action: TransactionType::Convert,
        asset: String::from("BTC"),
        quantity: 5_000_000,
        price: 0,
        conversion_to: Some(CoinConversion { name: String::from("BTC"), quantity: 3_000_000 }),
    };

    let portfolio = add_to_portfolio(portfolio, convert).unwrap();

    assert_eq!(portfolio.accounts.len(), 1);
    let btc = account(&portfolio, "BTC");
    assert_eq!(btc.quantity, 3_000_000);
    assert_eq!(btc.history.len(), 1);
}

#[test]
fn test_history_sorted_for_out_of_order_arrivals() {
    let portfolio = Portfolio::new();
    let t1 = simple(300, TransactionType::Buy, "ETH", 10);
    let t2 = simple(100, TransactionType::Buy, "ETH", 20);
    let t3 = simple(200, TransactionType::Sell, "ETH", 5);

    let portfolio = add_to_portfolio(portfolio, t1).unwrap();
    let portfolio = add_to_portfolio(portfolio, t2).unwrap();
    let portfolio = add_to_portfolio(portfolio, t3).unwrap();

    let eth = account(&portfolio, "ETH");
    assert_eq!(eth.quantity, 25);
    assert_eq!(eth.history.len(), 3);
    assert_eq!(eth.history[0].timestamp, 100);
    assert_eq!(eth.history[1].timestamp, 200);
    assert_eq!(eth.history[2].timestamp, 300);
}

#[test]
fn test_income_credits_balance() {
    let portfolio = Portfolio::new();
    let income = simple(1000, TransactionType::Income, "ADA", 42);
    let portfolio = add_to_portfolio(portfolio, income).unwrap();
    assert_eq!(account(&portfolio, "ADA").quantity, 42);
}

#[test]
fn test_other_accounts_untouched() {
    let portfolio = Portfolio::new();
    let buy_btc = simple(1, TransactionType::Buy, "BTC", 7);
    let buy_eth = simple(2, TransactionType::Buy, "ETH", 9);
    let portfolio = add_to_portfolio(portfolio, buy_btc).unwrap();
    let portfolio = add_to_portfolio(portfolio, buy_eth).unwrap();
    assert_eq!(account(&portfolio, "BTC").quantity, 7);
    assert_eq!(account(&portfolio, "BTC").history.len(), 1);
    assert_eq!(account(&portfolio, "ETH").quantity, 9);
}
