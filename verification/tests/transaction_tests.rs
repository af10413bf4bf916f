use coin_tax::transaction::create_transaction_from_line;
use coin_tax::transaction::get_action_by_exchange;
use coin_tax::transaction::get_asset_by_exchange;
use coin_tax::transaction::get_coinbase_action;
use coin_tax::transaction::get_conversion_to_by_exchange;
use coin_tax::transaction::get_price_by_exchange;
use coin_tax::transaction::get_quantity_by_exchange;
use coin_tax::transaction::get_timestamp_by_exchange;
use coin_tax::transaction::parse_units;
use coin_tax::transaction::split_csv_line;
use coin_tax::transaction::split_string;
use coin_tax::transaction::CoinConversion;
use coin_tax::transaction::Transaction;
use coin_tax::transaction::TransactionError;
use coin_tax::transaction::TransactionType;

fn row(action: &str) -> Vec<String> {
    vec![
        "2018-01-23T03:40:11Z",
        action,
        "BTC",
        "0.000919",
        "10881.58",
        "10.00",
        "10.00",
        "0.00",
        "Bought 0.000919 BTC for $10.00 USD",
    ]
    .into_iter()
    .map(String::from)
    .collect()
}

fn do_vecs_match(a: &Vec<String>, b: &Vec<&str>) -> bool {
    let matching = a
        .iter()
        .zip(b.iter())
        .filter(|(x, y)| x.as_str() == **y)
        .count();
    matching == a.len() && matching == b.len()
}

#[test]
fn test_get_action_by_exchange() {
    let test_buy_data = row("Buy");
    let test_sell_data = row("Sell");
    let test_income_data = row("Rewards Income");
    let test_earn_data = row("Coinbase Earn");
    let test_convert_data = row("Convert");
    let test_unknown_data = row("Unknown");

    let my_buy_action = get_action_by_exchange(&test_buy_data, "coinbase").unwrap();
    let my_sell_action = get_action_by_exchange(&test_sell_data, "coinbase").unwrap();
    let my_income_action = get_action_by_exchange(&test_income_data, "coinbase").unwrap();
    let my_earn_action = get_action_by_exchange(&test_earn_data, "coinbase").unwrap();
    let my_convert_action = get_action_by_exchange(&test_convert_data, "coinbase").unwrap();
    let my_unknown_action = get_action_by_exchange(&test_unknown_data, "coinbase").unwrap_err();
    let my_unsupported_exchange = get_action_by_exchange(&test_buy_data, "coinfake").unwrap_err();

    assert_eq!(my_buy_action, TransactionType::Buy);
    assert_eq!(my_sell_action, TransactionType::Sell);
    assert_eq!(my_income_action, TransactionType::Income);
    assert_eq!(my_earn_action, TransactionType::Income);
    assert_eq!(my_convert_action, TransactionType::Convert);
    assert_eq!(my_unknown_action, TransactionError::UnknownAction);
    assert_eq!(my_unsupported_exchange, TransactionError::UnsupportedExchange);
}

#[test]
fn test_get_timestamp_by_exchange() {
    let test_data = row("Buy");

    let expected_result = 1516678811000;

    let my_timestamp = get_timestamp_by_exchange(&test_data, "coinbase").unwrap();
    let my_unsupported_exchange = get_timestamp_by_exchange(&test_data, "coinfake").unwrap_err();

    assert_eq!(my_timestamp, expected_result);
    assert_eq!(my_unsupported_exchange, TransactionError::UnsupportedExchange);
}

#[test]
fn test_get_asset_by_exchange() {
    let test_data = row("Buy");
    let expected_result = "BTC";

    let my_asset = get_asset_by_exchange(&test_data, "coinbase").unwrap();
    let my_unsupported_exchange = get_asset_by_exchange(&test_data, "coinfake").unwrap_err();

    assert_eq!(my_asset, expected_result);
    assert_eq!(my_unsupported_exchange, TransactionError::UnsupportedExchange);
}

#[test]
fn test_get_quantity_by_exchange() {
    let test_data = row("Buy");
    // 0.000919 of a coin, in fixed-point units of 1e-10
    let expected_result = 9_190_000;

    let my_quantity = get_quantity_by_exchange(&test_data, "coinbase").unwrap();
    let my_unsupported_exchange = get_quantity_by_exchange(&test_data, "coinfake").unwrap_err();

    assert_eq!(my_quantity, expected_result);
    assert_eq!(my_unsupported_exchange, TransactionError::UnsupportedExchange);
}

#[test]
fn test_get_price_by_exchange() {
    let test_data = row("Buy");
    // 10.00, in fixed-point units of 1e-10
    let expected_result = 100_000_000_000;

    let my_price = get_price_by_exchange(&test_data, "coinbase").unwrap();
    let my_unsupported_exchange = get_price_by_exchange(&test_data, "coinfake").unwrap_err();

    assert_eq!(my_price, expected_result);
    assert_eq!(my_unsupported_exchange, TransactionError::UnsupportedExchange);
}

#[test]
fn test_get_conversion_to_by_exchange() {
    let test_data: Vec<String> = vec![
        "2021-01-31T05:20:47Z",
        "Convert",
        "XLM",
        "1641.4065951",
        "0.310000",
        "505.34",
        "515.01",
        "9.67",
        "Converted 1,641.4065951 XLM to 774.762752 ALGO",
    ]
    .into_iter()
    .map(String::from)
    .collect();
    let expected_result = Some(CoinConversion {
        name: String::from("ALGO"),
        // 774.762752 of a coin, in fixed-point units of 1e-10
        quantity: 7_747_627_520_000,
    });

    let my_conversion_to = get_conversion_to_by_exchange(&test_data, "coinbase").unwrap();
    let my_unsupported_exchange = get_price_by_exchange(&test_data, "coinfake").unwrap_err();

    assert_eq!(my_conversion_to, expected_result);
    assert_eq!(my_unsupported_exchange, TransactionError::UnsupportedExchange);
}

#[test]
fn test_split_string() {
    let expected_result = vec!["this", "is", "a", "test", "string"];
    let test_string = "this,is,a,test,string";
    let pipe_separated = "this|is|a|test|string";

    let my_split_string = split_string(test_string, None);
    let pipe_split_string = split_string(pipe_separated, Some('|'));

    assert_eq!(my_split_string.len(), expected_result.len());
    assert!(do_vecs_match(&my_split_string, &expected_result));
    assert_eq!(pipe_split_string.len(), expected_result.len());
    assert!(do_vecs_match(&pipe_split_string, &expected_result));
}

#[test]
fn test_split_csv_line() {
    let expected_result = vec!["this", "is", "a", "test", "string"];
    let test_string = "this,is,a,test,string";
    let pipe_separated = "this|is|a|test|string";

    let my_split_string = split_csv_line(test_string);
    let pipe_split_string = split_csv_line(pipe_separated);

    assert_eq!(my_split_string.len(), expected_result.len());
    assert!(do_vecs_match(&my_split_string, &expected_result));
    assert_ne!(pipe_split_string.len(), expected_result.len());
    assert!(!do_vecs_match(&pipe_split_string, &expected_result));
}

#[test]
fn test_create_transaction_from_line() {
    let test_string =
        "2018-01-23T03:40:11Z,Buy,BTC,0.000919,10881.58,10.00,10.00,0.00,Bought 0.000919 BTC for $10.00 USD";
    let expected_result = Transaction {
        timestamp: 1516678811000,
        action: TransactionType::Buy,
        asset: String::from("BTC"),
        quantity: 9_190_000,
        price: 100_000_000_000,
        conversion_to: None,
    };

    let transaction = create_transaction_from_line(test_string, "coinbase").unwrap();

    assert_eq!(transaction.timestamp, expected_result.timestamp);
    assert_eq!(transaction.action, expected_result.action);
    assert_eq!(transaction.asset, expected_result.asset);
    assert_eq!(transaction.timestamp, expected_result.timestamp);
    assert_eq!(transaction.timestamp, expected_result.timestamp);
}

#[test]
fn test_create_transaction_quantity_and_price() {
    let test_string =
        "2018-01-23T03:40:11Z,Buy,BTC,0.000919,10881.58,10.00,10.00,0.00,Bought 0.000919 BTC for $10.00 USD";

    let transaction = create_transaction_from_line(test_string, "coinbase").unwrap();

    assert_eq!(transaction.quantity, 9_190_000);
    assert_eq!(transaction.price, 100_000_000_000);
    assert!(transaction.conversion_to.is_none());
}

#[test]
fn test_parse_units_exact_values() {
    assert_eq!(parse_units("10881.58").unwrap(), 108_815_800_000_000);
    assert_eq!(parse_units("0.000919").unwrap(), 9_190_000);
    assert_eq!(parse_units("1641.4065951").unwrap(), 16_414_065_951_000);
    assert_eq!(parse_units("0").unwrap(), 0);
    assert_eq!(parse_units("7").unwrap(), 70_000_000_000);
    assert_eq!(parse_units("5.").unwrap(), 50_000_000_000);
    assert_eq!(parse_units(".5").unwrap(), 5_000_000_000);
    assert_eq!(parse_units("99999999").unwrap(), 999_999_990_000_000_000);
}

#[test]
fn test_parse_units_rejects_malformed() {
    assert_eq!(parse_units("").unwrap_err(), TransactionError::NumericParseError);
    assert_eq!(parse_units(".").unwrap_err(), TransactionError::NumericParseError);
    assert_eq!(parse_units("12a").unwrap_err(), TransactionError::NumericParseError);
    assert_eq!(parse_units("1.2.3").unwrap_err(), TransactionError::NumericParseError);
    assert_eq!(parse_units("-5").unwrap_err(), TransactionError::NumericParseError);
    // one whole digit too many for the fixed-point range
    assert_eq!(parse_units("123456789").unwrap_err(), TransactionError::NumericParseError);
    // one fractional digit too many to represent exactly
    assert_eq!(parse_units("1.12345678901").unwrap_err(), TransactionError::NumericParseError);
}

#[test]
fn test_get_coinbase_action_vocabulary() {
    assert_eq!(get_coinbase_action("Buy").unwrap(), TransactionType::Buy);
    assert_eq!(get_coinbase_action("Sell").unwrap(), TransactionType::Sell);
    assert_eq!(get_coinbase_action("Rewards Income").unwrap(), TransactionType::Income);
    assert_eq!(get_coinbase_action("Coinbase Earn").unwrap(), TransactionType::Income);
    assert_eq!(get_coinbase_action("Convert").unwrap(), TransactionType::Convert);
    assert_eq!(
        get_coinbase_action("Staking").unwrap_err(),
        TransactionError::UnknownAction
    );
}

#[test]
fn test_time_parse_error() {
    let mut data = row("Buy");
    data[0] = String::from("not-a-date");
    assert_eq!(
        get_timestamp_by_exchange(&data, "coinbase").unwrap_err(),
        TransactionError::TimeParseError
    );
}

#[test]
fn test_malformed_line_too_few_fields() {
    let line = "2018-01-23T03:40:11Z,Buy,BTC";
    assert_eq!(
        create_transaction_from_line(line, "coinbase").unwrap_err(),
        TransactionError::MalformedLine
    );
}

#[test]
fn test_conversion_strips_quotes() {
    let data: Vec<String> = vec![
        "2021-01-31T05:20:47Z",
        "Convert",
        "XLM",
        "1641.4065951",
        "0.310000",
        "505.34",
        "515.01",
        "9.67",
        "Converted 1,641.4065951 XLM to 774.762752 ALGO\"",
    ]
    .into_iter()
    .map(String::from)
    .collect();
    let conversion = get_conversion_to_by_exchange(&data, "coinbase").unwrap().unwrap();
    assert_eq!(conversion.name, "ALGO");
    assert_eq!(conversion.quantity, 7_747_627_520_000);
}
