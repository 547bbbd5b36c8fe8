use pricefetch::dispatch::{DispatchError, Origin, ValidTransaction};
use pricefetch::json::{JsonValue, NumberValue};
use pricefetch::price_fetch::{
    fetched_cryptos, Call, Event, FetchError, OffchainAction, PriceFetch, PriceReading,
    RemoteSource, validate_unsigned,
};

fn b(s: &str) -> Vec<u8> {
    s.as_bytes().to_vec()
}

fn chars(s: &str) -> Vec<char> {
    s.chars().collect()
}

fn info(sym: &str, src: &str) -> (Vec<u8>, Vec<u8>, Vec<u8>) {
    (b(sym), b(src), b("https://example.com/quote"))
}

fn record(state: &mut PriceFetch, sym: &str, src: &str, price: u64, now: u64) -> Event {
    state.record_price(Origin::Unsigned, 1, info(sym, src), price, now).expect("unsigned origin")
}

fn agg_price(call: Option<Call>) -> u64 {
    match call {
        Some(Call::RecordAggPp { price, .. }) => price,
        other => panic!("unexpected {:?}", other),
    }
}

#[test]
fn record_price_stores_point_and_indices() {
    let mut state = PriceFetch::new();
    let ev = record(&mut state, "BTC", "coincap", 81722628, 1000);
    match ev {
        Event::FetchedPrice(sym, src, now, price) => {
            assert_eq!(sym, b("BTC"));
            assert_eq!(src, b("coincap"));
            assert_eq!(now, 1000);
            assert_eq!(price, 81722628);
        }
        other => panic!("unexpected {:?}", other),
    }
    record(&mut state, "ETH", "cryptocompare", 2000000, 1001);
    record(&mut state, "BTC", "cryptocompare", 81700000, 1002);
    assert_eq!(state.src_price_pts(), &vec![(1000, 81722628), (1001, 2000000), (1002, 81700000)]);
    assert_eq!(state.token_src_pp(&b("BTC")), vec![0, 2]);
    assert_eq!(state.token_src_pp(&b("ETH")), vec![1]);
    assert_eq!(state.token_src_pp(&b("DAI")), Vec::<u32>::new());
    assert_eq!(state.remote_src_pp(&b("coincap")), vec![0]);
    assert_eq!(state.remote_src_pp(&b("cryptocompare")), vec![1, 2]);
    assert_eq!(state.update_agg_pp(&b("BTC")), 2);
    assert_eq!(state.update_agg_pp(&b("ETH")), 1);
    assert_eq!(state.update_agg_pp(&b("DAI")), 0);
}

#[test]
fn record_agg_pp_stores_point_and_clears_pending() {
    let mut state = PriceFetch::new();
    record(&mut state, "BTC", "coincap", 10, 1);
    record(&mut state, "BTC", "coincap", 20, 2);
    let ev = state.record_agg_pp(Origin::Unsigned, 3, b("BTC"), 15, 3);
    match ev {
        Event::AggregatedPrice(sym, now, price) => {
            assert_eq!(sym, b("BTC"));
            assert_eq!(now, 3);
            assert_eq!(price, 15);
        }
        other => panic!("unexpected {:?}", other),
    }
    assert_eq!(state.update_agg_pp(&b("BTC")), 0);
    assert_eq!(state.agg_price_pts(), &vec![(3, 15)]);
    assert_eq!(state.token_agg_pp(&b("BTC")), vec![0]);
    state.record_agg_pp(Origin::Unsigned, 4, b("ETH"), 7, 4);
    assert_eq!(state.token_agg_pp(&b("ETH")), vec![1]);
    assert_eq!(state.update_agg_pp(&b("ETH")), 0);
}

#[test]
fn aggregate_averages_the_latest_prices() {
    let mut state = PriceFetch::new();
    record(&mut state, "BTC", "coincap", 100, 1);
    record(&mut state, "ETH", "coincap", 999, 1);
    record(&mut state, "BTC", "coincap", 10, 2);
    record(&mut state, "BTC", "cryptocompare", 20, 3);
    // the last two BTC prices: (10 + 20) / 2
    let call = state.aggregate_pp(42, &b("BTC"), 2);
    match call {
        Some(Call::RecordAggPp { block, sym, price }) => {
            assert_eq!(block, 42);
            assert_eq!(sym, b("BTC"));
            assert_eq!(price, 15);
        }
        other => panic!("unexpected {:?}", other),
    }
    // more requested than recorded: all three, (100 + 10 + 20) / 3 = 43.33
    assert_eq!(agg_price(state.aggregate_pp(42, &b("BTC"), 10)), 43);
    assert_eq!(agg_price(state.aggregate_pp(42, &b("BTC"), 1)), 20);
}

#[test]
fn aggregate_rounds_halves_up() {
    let mut state = PriceFetch::new();
    record(&mut state, "DAI", "coincap", 2, 1);
    record(&mut state, "DAI", "coincap", 3, 2);
    // 2.5 rounds to 3
    assert_eq!(agg_price(state.aggregate_pp(1, &b("DAI"), 2)), 3);
    record(&mut state, "DAI", "coincap", 3, 3);
    // (2 + 3 + 3) / 3 = 2.67 rounds to 3; (3 + 3) / 2 = 3
    assert_eq!(agg_price(state.aggregate_pp(1, &b("DAI"), 3)), 3);
    record(&mut state, "DAI", "coincap", 0, 4);
    // (3 + 3 + 0) / 3 = 2
    assert_eq!(agg_price(state.aggregate_pp(1, &b("DAI"), 3)), 2);
    record(&mut state, "DAI", "coincap", 1, 5);
    // (3 + 0 + 1) / 3 = 1.33 rounds to 1
    assert_eq!(agg_price(state.aggregate_pp(1, &b("DAI"), 3)), 1);
}

#[test]
fn aggregate_of_nothing_is_zero() {
    let state = PriceFetch::new();
    assert_eq!(agg_price(state.aggregate_pp(5, &b("BTC"), 3)), 0);
    let mut state = PriceFetch::new();
    record(&mut state, "BTC", "coincap", 17, 1);
    assert_eq!(agg_price(state.aggregate_pp(5, &b("BTC"), 0)), 0);
}

#[test]
fn aggregate_overflow_is_reported() {
    let mut state = PriceFetch::new();
    record(&mut state, "BTC", "coincap", u64::MAX, 1);
    assert_eq!(agg_price(state.aggregate_pp(5, &b("BTC"), 1)), u64::MAX);
    record(&mut state, "BTC", "coincap", 1, 2);
    assert!(state.aggregate_pp(5, &b("BTC"), 2).is_none());
    assert_eq!(agg_price(state.aggregate_pp(5, &b("BTC"), 1)), 1);
}

#[test]
fn aggregate_of_equal_prices_is_that_price() {
    let mut state = PriceFetch::new();
    for t in 0..5 {
        record(&mut state, "ETH", "coincap", 123456, t);
    }
    assert_eq!(agg_price(state.aggregate_pp(1, &b("ETH"), 5)), 123456);
    assert_eq!(agg_price(state.aggregate_pp(1, &b("ETH"), 3)), 123456);
}

#[test]
fn aggregate_lies_between_lowest_and_highest() {
    let mut state = PriceFetch::new();
    let prices = [5u64, 9, 7, 6, 11, 8];
    for (t, p) in prices.iter().enumerate() {
        record(&mut state, "BTC", "coincap", *p, t as u64);
    }
    for freq in 1..=6usize {
        let avg = agg_price(state.aggregate_pp(1, &b("BTC"), freq));
        let window = &prices[6 - freq..];
        assert!(*window.iter().min().unwrap() <= avg);
        assert!(avg <= *window.iter().max().unwrap());
    }
}

#[test]
fn pending_window_is_the_prices_since_last_aggregation() {
    let mut state = PriceFetch::new();
    record(&mut state, "BTC", "coincap", 1000, 1);
    record(&mut state, "BTC", "coincap", 2000, 2);
    state.record_agg_pp(Origin::Unsigned, 2, b("BTC"), 1500, 2);
    record(&mut state, "BTC", "coincap", 10, 3);
    record(&mut state, "BTC", "coincap", 30, 4);
    let freq = state.update_agg_pp(&b("BTC"));
    assert_eq!(freq, 2);
    assert_eq!(agg_price(state.aggregate_pp(9, &b("BTC"), freq as usize)), 20);
}

#[test]
fn offchain_worker_fetches_when_due() {
    let state = PriceFetch::new();
    let actions = state.offchain_worker(6, 3);
    assert_eq!(actions.len(), 6);
    let cryptos = fetched_cryptos();
    for (a, c) in actions.iter().zip(cryptos.iter()) {
        match a {
            OffchainAction::FetchPrice { sym, remote_src, remote_url } => {
                assert_eq!(sym, &c.0);
                assert_eq!(remote_src, &c.1);
                assert_eq!(remote_url, &c.2);
            }
            other => panic!("unexpected {:?}", other),
        }
    }
    assert!(state.offchain_worker(7, 3).is_empty());
    assert!(state.offchain_worker(0, 0).is_empty());
    assert_eq!(state.offchain_worker(0, 1).len(), 6);
}

#[test]
fn fetched_cryptos_lists_six_quotes() {
    let c = fetched_cryptos();
    assert_eq!(c.len(), 6);
    assert_eq!(c[0], info_url("BTC", "coincap", "https://api.coincap.io/v2/assets/bitcoin"));
    assert_eq!(
        c[1],
        info_url(
            "BTC",
            "cryptocompare",
            "https://min-api.cryptocompare.com/data/price?fsym=BTC&tsyms=USD"
        )
    );
    assert_eq!(c[2], info_url("ETH", "coincap", "https://api.coincap.io/v2/assets/ethereum"));
    assert_eq!(
        c[3],
        info_url(
            "ETH",
            "cryptocompare",
            "https://min-api.cryptocompare.com/data/price?fsym=ETH&tsyms=USD"
        )
    );
    assert_eq!(c[4], info_url("DAI", "coincap", "https://api.coincap.io/v2/assets/dai"));
    assert_eq!(
        c[5],
        info_url(
            "DAI",
            "cryptocompare",
            "https://min-api.cryptocompare.com/data/price?fsym=DAI&tsyms=USD"
        )
    );
}

fn info_url(sym: &str, src: &str, url: &str) -> (Vec<u8>, Vec<u8>, Vec<u8>) {
    (b(sym), b(src), b(url))
}

#[test]
fn offchain_worker_aggregates_pending_tokens() {
    let mut state = PriceFetch::new();
    record(&mut state, "BTC", "coincap", 10, 1);
    record(&mut state, "ETH", "coincap", 7, 1);
    record(&mut state, "BTC", "coincap", 20, 2);
    state.record_agg_pp(Origin::Unsigned, 2, b("ETH"), 7, 2);
    record(&mut state, "DAI", "coincap", 1, 3);
    let actions = state.offchain_worker(5, 0);
    assert_eq!(actions.len(), 2);
    // storage is walked from the most recently added token
    match &actions[0] {
        OffchainAction::SubmitUnsigned(Call::RecordAggPp { block, sym, price }) => {
            assert_eq!(*block, 5);
            assert_eq!(sym, &b("DAI"));
            assert_eq!(*price, 1);
        }
        other => panic!("unexpected {:?}", other),
    }
    match &actions[1] {
        OffchainAction::SubmitUnsigned(Call::RecordAggPp { sym, price, .. }) => {
            assert_eq!(sym, &b("BTC"));
            assert_eq!(*price, 15);
        }
        other => panic!("unexpected {:?}", other),
    }
    // fetching comes first when due
    let actions = state.offchain_worker(10, 5);
    assert_eq!(actions.len(), 8);
    assert!(matches!(actions[6], OffchainAction::SubmitUnsigned(_)));
}

#[test]
fn offchain_worker_reports_overflow() {
    let mut state = PriceFetch::new();
    record(&mut state, "BTC", "coincap", u64::MAX, 1);
    record(&mut state, "BTC", "coincap", u64::MAX, 2);
    let actions = state.offchain_worker(1, 0);
    assert_eq!(actions.len(), 1);
    match &actions[0] {
        OffchainAction::AggregateOverflow(sym) => assert_eq!(sym, &b("BTC")),
        other => panic!("unexpected {:?}", other),
    }
}

#[test]
fn offchain_worker_skips_aggregated_tokens() {
    let mut state = PriceFetch::new();
    record(&mut state, "BTC", "coincap", 10, 1);
    state.record_agg_pp(Origin::Unsigned, 1, b("BTC"), 10, 1);
    assert!(state.offchain_worker(3, 2).is_empty());
}

fn expect_tag(v: Result<ValidTransaction, pricefetch::dispatch::InvalidTransaction>, tag: Vec<u8>) {
    let v = v.expect("valid");
    assert_eq!(v.priority, 0);
    assert!(v.requires.is_empty());
    assert_eq!(v.provides, vec![tag]);
    assert_eq!(v.longevity, u64::MAX);
    assert!(v.propagate);
}

#[test]
fn validate_unsigned_tags_record_price() {
    let call = Call::RecordPrice { block: 5, crypto_info: info("BTC", "coincap"), price: 0x0102 };
    let mut tag = vec![5, 0, 0, 0, 0, 0, 0, 0, 12];
    tag.extend_from_slice(b"BTC");
    tag.push(28);
    tag.extend_from_slice(b"coincap");
    tag.extend_from_slice(&[2, 1, 0, 0, 0, 0, 0, 0]);
    expect_tag(validate_unsigned(&call), tag);
}

#[test]
fn validate_unsigned_tags_record_agg_pp() {
    let call = Call::RecordAggPp { block: 0x0100, sym: b("ETH"), price: 7 };
    let mut tag = vec![0, 1, 0, 0, 0, 0, 0, 0, 12];
    tag.extend_from_slice(b"ETH");
    tag.extend_from_slice(&[7, 0, 0, 0, 0, 0, 0, 0]);
    expect_tag(validate_unsigned(&call), tag);
}

#[test]
fn validate_unsigned_uses_compact_lengths() {
    let sym = vec![b'X'; 64];
    let call = Call::RecordAggPp { block: 0, sym: sym.clone(), price: 0 };
    let mut tag = vec![0u8; 8];
    // 64 * 4 + 1 = 257, two little-endian bytes
    tag.extend_from_slice(&[1, 1]);
    tag.extend_from_slice(&sym);
    tag.extend_from_slice(&[0u8; 8]);
    expect_tag(validate_unsigned(&call), tag);

    let sym = vec![b'Y'; 16384];
    let call = Call::RecordAggPp { block: 0, sym: sym.clone(), price: 0 };
    let mut tag = vec![0u8; 8];
    // 16384 * 4 + 2 = 65538, four little-endian bytes
    tag.extend_from_slice(&[2, 0, 1, 0]);
    tag.extend_from_slice(&sym);
    tag.extend_from_slice(&[0u8; 8]);
    expect_tag(validate_unsigned(&call), tag);
}

#[test]
fn remote_source_recognises_known_sources() {
    assert_eq!(PriceFetch::remote_source(b"coincap"), Ok(RemoteSource::Coincap));
    assert_eq!(PriceFetch::remote_source(b"cryptocompare"), Ok(RemoteSource::Cryptocompare));
    assert_eq!(PriceFetch::remote_source(b"coinbase"), Err(FetchError::UnknownRemoteSource));
    assert_eq!(PriceFetch::remote_source(b""), Err(FetchError::UnknownRemoteSource));
}

fn num(integer: i64, fraction: u64, fraction_length: u32) -> NumberValue {
    NumberValue { integer, fraction, fraction_length, exponent: 0 }
}

fn cryptocompare_quote() -> JsonValue {
    // {"USD": 7064.16}
    JsonValue::Object(vec![(chars("USD"), JsonValue::Number(num(7064, 16, 2)))])
}

fn coincap_quote(members: Vec<(Vec<char>, JsonValue)>) -> JsonValue {
    // {"data": {...}, "timestamp": 1}
    JsonValue::Object(vec![
        (chars("data"), JsonValue::Object(members)),
        (chars("timestamp"), JsonValue::Number(num(1, 0, 0))),
    ])
}

#[test]
fn fetch_price_from_cryptocompare_reads_first_member() {
    assert_eq!(PriceFetch::fetch_price_from_cryptocompare(&cryptocompare_quote()), num(7064, 16, 2));
}

#[test]
fn fetch_price_from_coincap_reads_price_usd() {
    let quote = coincap_quote(vec![
        (chars("id"), JsonValue::String(chars("bitcoin"))),
        (chars("priceUsd"), JsonValue::String(chars("8172.2628346190447316"))),
        (chars("priceUsd"), JsonValue::String(chars("1.0"))),
    ]);
    assert_eq!(PriceFetch::fetch_price_from_coincap(&quote), Ok(b("8172.2628346190447316")));
}

#[test]
fn fetch_price_from_coincap_without_price_is_an_error() {
    let quote = coincap_quote(vec![(chars("id"), JsonValue::String(chars("bitcoin")))]);
    assert_eq!(PriceFetch::fetch_price_from_coincap(&quote), Err(FetchError::CoincapFormat));
    let quote = coincap_quote(vec![]);
    assert_eq!(PriceFetch::fetch_price_from_coincap(&quote), Err(FetchError::CoincapFormat));
}

#[test]
fn fetch_price_from_coincap_cuts_key_characters_to_bytes() {
    // 'ŕ' is U+0155, whose low byte is 'U' (0x55)
    let quote = coincap_quote(vec![(chars("priceŕsd"), JsonValue::String(chars("42")))]);
    assert_eq!(PriceFetch::fetch_price_from_coincap(&quote), Ok(b("42")));
}

#[test]
fn price_reading_follows_the_source() {
    match PriceFetch::price_reading(b"cryptocompare", &cryptocompare_quote()) {
        Ok(PriceReading::Number(n)) => assert_eq!(n, num(7064, 16, 2)),
        other => panic!("unexpected {:?}", other),
    }
    let quote = coincap_quote(vec![(chars("priceUsd"), JsonValue::String(chars("222.333")))]);
    match PriceFetch::price_reading(b"coincap", &quote) {
        Ok(PriceReading::Decimal(d)) => assert_eq!(d, b("222.333")),
        other => panic!("unexpected {:?}", other),
    }
    assert!(matches!(
        PriceFetch::price_reading(b"kraken", &JsonValue::Null),
        Err(FetchError::UnknownRemoteSource)
    ));
    let quote = coincap_quote(vec![]);
    assert!(matches!(PriceFetch::price_reading(b"coincap", &quote), Err(FetchError::CoincapFormat)));
}

#[test]
fn is_quote_readable_checks_the_shape_of_each_source() {
    assert!(PriceFetch::is_quote_readable(b"cryptocompare", &cryptocompare_quote()));
    assert!(!PriceFetch::is_quote_readable(b"cryptocompare", &JsonValue::Null));
    assert!(!PriceFetch::is_quote_readable(b"cryptocompare", &JsonValue::Object(vec![])));
    let ok = coincap_quote(vec![(chars("priceUsd"), JsonValue::String(chars("1.5")))]);
    assert!(PriceFetch::is_quote_readable(b"coincap", &ok));
    let no_price = coincap_quote(vec![(chars("id"), JsonValue::Null)]);
    assert!(PriceFetch::is_quote_readable(b"coincap", &no_price));
    let not_text = coincap_quote(vec![
        (chars("priceUsd"), JsonValue::Number(num(1, 5, 1))),
        (chars("priceUsd"), JsonValue::String(chars("1.5"))),
    ]);
    assert!(!PriceFetch::is_quote_readable(b"coincap", &not_text));
    assert!(!PriceFetch::is_quote_readable(b"coincap", &cryptocompare_quote()));
    assert!(PriceFetch::is_quote_readable(b"kraken", &JsonValue::Null));
}

#[test]
fn record_price_refuses_signed_and_root_origins() {
    let mut state = PriceFetch::new();
    record(&mut state, "BTC", "coincap", 10, 1);
    let r = state.record_price(Origin::Signed(1), 2, info("BTC", "coincap"), 20, 2);
    assert!(matches!(r, Err(DispatchError::BadOrigin)));
    let r = state.record_price(Origin::Root, 2, info("ETH", "coincap"), 30, 2);
    assert!(matches!(r, Err(DispatchError::BadOrigin)));
    assert_eq!(state.src_price_pts(), &vec![(1, 10)]);
    assert_eq!(state.token_src_pp(&b("BTC")), vec![0]);
    assert_eq!(state.token_src_pp(&b("ETH")), Vec::<u32>::new());
    assert_eq!(state.update_agg_pp(&b("BTC")), 1);
}

#[test]
fn price_tags_differ_by_each_field_but_not_url() {
    let tag = |block: u64, sym: &str, src: &str, url: &str, price: u64| {
        let call = Call::RecordPrice { block, crypto_info: (b(sym), b(src), b(url)), price };
        validate_unsigned(&call).unwrap().provides
    };
    let base = tag(1, "BTC", "coincap", "u1", 5);
    assert_eq!(base, tag(1, "BTC", "coincap", "u2", 5));
    assert_ne!(base, tag(2, "BTC", "coincap", "u1", 5));
    assert_ne!(base, tag(1, "ETH", "coincap", "u1", 5));
    assert_ne!(base, tag(1, "BTC", "cryptocompare", "u1", 5));
    assert_ne!(base, tag(1, "BTC", "coincap", "u1", 6));
    // the length prefixes keep token and source apart
    assert_ne!(tag(1, "BT", "Ccoincap", "u", 5), base);
}
