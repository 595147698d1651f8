use moneyman::convert::ConversionError;
use moneyman::currency::{eur, pack_code, Currency, Money};
use moneyman::dates::day_from_ymd;
use moneyman::decimal::parse_decimal;
use moneyman::store::{ExchangeStore, InitError, RateRow, SyncError};

fn usd() -> Currency {
    Currency { code: pack_code("USD").unwrap(), minor_units: 2 }
}

fn brl() -> Currency {
    Currency { code: pack_code("BRL").unwrap(), minor_units: 2 }
}

#[test]
fn exchange_store_it_converts_currencies_on_available_dates() {
    let csv = "Date,USD\n2023-05-04,1.1074\n";
    let (store, latest) = ExchangeStore::sync(csv, vec![usd()]).unwrap();
    assert_eq!(latest, day_from_ymd(2023, 5, 4).unwrap());

    let amount_in_eur = Money::from_decimal(parse_decimal("1000").unwrap(), eur());
    let date = day_from_ymd(2023, 5, 4).unwrap();
    let amount_in_usd = store.convert_on_date(amount_in_eur, &usd(), date).unwrap();
    // 1000 * 1.1074
    let expected_amount = Money::from_decimal(parse_decimal("1107.4").unwrap(), usd());

    assert_eq!(expected_amount, amount_in_usd);
}

#[test]
fn exchange_store_it_fails_to_convert_if_no_rate_on_given_date() {
    let csv = "Date,USD\n2023-05-04,1.1074\n2023-05-05,1.1061\n";
    let (store, _) = ExchangeStore::sync(csv, vec![usd()]).unwrap();

    let amount_in_eur = Money::from_decimal(parse_decimal("1000").unwrap(), eur());
    let date = day_from_ymd(2023, 5, 6).unwrap();

    match store.convert_on_date(amount_in_eur, &usd(), date) {
        Ok(_) => panic!("expected to fail"),
        Err(ConversionError::NoExchangeRate { .. }) => (),
        Err(_) => panic!("expected db not to have any results, not fail cause of other cases"),
    }
}

#[test]
fn it_interpolates_a_missing_date_with_fallback() {
    // Observed rows only for 1999-01-04 and 1999-01-06; the midpoint
    // quote is (1.1789 + 1.1790) / 2 = 1.17895.
    let csv = "Date,USD\n1999-01-04,1.1789\n1999-01-06,1.1790\n";
    let (store, latest) = ExchangeStore::sync(csv, vec![usd()]).unwrap();
    assert_eq!(latest, day_from_ymd(1999, 1, 6).unwrap());

    let amount = Money::from_decimal(parse_decimal("1000").unwrap(), eur());
    let date = day_from_ymd(1999, 1, 5).unwrap();
    let converted = store
        .convert_on_date_with_fallback(amount, &usd(), date)
        .unwrap();
    let expected = Money::from_decimal(parse_decimal("1178.95").unwrap(), usd());
    assert_eq!(expected, converted);

    // The same request without fallback must fail: the midpoint row is
    // interpolated, not observed.
    let amount = Money::from_decimal(parse_decimal("1000").unwrap(), eur());
    match store.convert_on_date(amount, &usd(), date) {
        Err(ConversionError::NoExchangeRate(d)) => assert_eq!(d, date),
        other => panic!("expected no exchange rate, got {:?}", other),
    }
}

#[test]
fn it_fails_with_same_currency_for_identity_conversions() {
    let csv = "Date,USD\n2023-05-04,1.1074\n";
    let (store, _) = ExchangeStore::sync(csv, vec![usd()]).unwrap();
    let date = day_from_ymd(2023, 5, 4).unwrap();

    let in_eur = Money::from_decimal(parse_decimal("1000").unwrap(), eur());
    assert_eq!(
        store.convert_on_date(in_eur, &eur(), date),
        Err(ConversionError::SameCurrency)
    );
    let in_eur = Money::from_decimal(parse_decimal("1000").unwrap(), eur());
    assert_eq!(
        store.convert_on_date_with_fallback(in_eur, &eur(), date),
        Err(ConversionError::SameCurrency)
    );
    let in_usd = Money::from_decimal(parse_decimal("5").unwrap(), usd());
    assert_eq!(
        store.convert_on_date(in_usd, &usd(), date),
        Err(ConversionError::SameCurrency)
    );
    // Also on a date with no data at all.
    let in_usd = Money::from_decimal(parse_decimal("5").unwrap(), usd());
    let far = day_from_ymd(1980, 1, 1).unwrap();
    assert_eq!(
        store.convert_on_date(in_usd, &usd(), far),
        Err(ConversionError::SameCurrency)
    );
}

#[test]
fn it_fails_with_invalid_currency_for_untracked_codes() {
    let csv = "Date,USD\n2023-05-04,1.1074\n";
    let (store, _) = ExchangeStore::sync(csv, vec![usd()]).unwrap();

    for date in [
        day_from_ymd(2023, 5, 4).unwrap(),
        day_from_ymd(2001, 9, 9).unwrap(),
    ] {
        let amount = Money::from_decimal(parse_decimal("1000").unwrap(), eur());
        match store.convert_on_date(amount, &brl(), date) {
            Err(ConversionError::InvalidCurrency(c)) => assert_eq!(c, brl()),
            other => panic!("expected invalid currency, got {:?}", other),
        }
        let amount = Money::from_decimal(parse_decimal("1000").unwrap(), eur());
        match store.convert_on_date_with_fallback(amount, &brl(), date) {
            Err(ConversionError::InvalidCurrency(c)) => assert_eq!(c, brl()),
            other => panic!("expected invalid currency, got {:?}", other),
        }
    }
}

#[test]
fn it_bridges_between_two_non_euro_currencies() {
    let csv = "Date,USD,JPY\n2023-05-04,1.25,150\n";
    let jpy = Currency { code: pack_code("JPY").unwrap(), minor_units: 0 };
    let (store, _) = ExchangeStore::sync(csv, vec![usd(), jpy]).unwrap();
    let date = day_from_ymd(2023, 5, 4).unwrap();

    // 500 USD -> 400 EUR -> 60000 JPY, both steps exact.
    let amount = Money::from_decimal(parse_decimal("500").unwrap(), usd());
    let got = store.convert_on_date(amount, &jpy, date).unwrap();
    let expected = Money::from_decimal(parse_decimal("60000").unwrap(), jpy);
    assert_eq!(expected, got);
}

#[test]
fn it_round_trips_within_a_small_tolerance() {
    let csv = "Date,USD\n1999-01-04,1.1789\n";
    let (store, _) = ExchangeStore::sync(csv, vec![usd()]).unwrap();
    let date = day_from_ymd(1999, 1, 4).unwrap();

    let original = Money::from_decimal(parse_decimal("1000").unwrap(), usd());
    let in_eur = store.convert_on_date(original, &eur(), date).unwrap();
    let back = store.convert_on_date(in_eur, &usd(), date).unwrap();

    // |back - 1000| <= 1e-12, far tighter than a cent.
    let amount = back.amount();
    assert!(amount.m > 0);
    assert!(amount.s <= 18);
    let value_e18: i128 = amount.m * 10i128.pow(18 - amount.s);
    let want_e18: i128 = 1000 * 10i128.pow(18);
    let diff = (value_e18 - want_e18).abs();
    assert!(diff <= 1_000_000, "round trip drifted: {}", diff);
}

#[test]
fn it_precomputes_every_gap_after_sync() {
    let csv = "Date,USD\n1999-01-04,1.1789\n1999-01-08,1.1790\n";
    let (store, _) = ExchangeStore::sync(csv, vec![usd()]).unwrap();

    // Every day between the observed bounds has a usable rate.
    for dom in 4..=8u32 {
        let date = day_from_ymd(1999, 1, dom as u32).unwrap();
        let amount = Money::from_decimal(parse_decimal("1").unwrap(), eur());
        let got = store.convert_on_date_with_fallback(amount, &usd(), date);
        assert!(got.is_ok(), "no rate on 1999-01-0{}", dom);
    }
    // Just outside the bounds there is none.
    let amount = Money::from_decimal(parse_decimal("1").unwrap(), eur());
    let before = day_from_ymd(1999, 1, 3).unwrap();
    assert!(matches!(
        store.convert_on_date_with_fallback(amount, &usd(), before),
        Err(ConversionError::NoExchangeRate(_))
    ));
    let amount = Money::from_decimal(parse_decimal("1").unwrap(), eur());
    let after = day_from_ymd(1999, 1, 9).unwrap();
    assert!(matches!(
        store.convert_on_date_with_fallback(amount, &usd(), after),
        Err(ConversionError::NoExchangeRate(_))
    ));
}

#[test]
fn it_skips_currencies_absent_on_a_day() {
    let csv = "Date,USD,JPY\n2023-05-04,N/A,150\n";
    let jpy = Currency { code: pack_code("JPY").unwrap(), minor_units: 0 };
    let (store, _) = ExchangeStore::sync(csv, vec![usd(), jpy]).unwrap();
    let date = day_from_ymd(2023, 5, 4).unwrap();

    // JPY is available...
    let amount = Money::from_decimal(parse_decimal("3").unwrap(), eur());
    assert!(store.convert_on_date(amount, &jpy, date).is_ok());
    // ...but USD has no quote that day.
    let amount = Money::from_decimal(parse_decimal("3").unwrap(), eur());
    assert!(matches!(
        store.convert_on_date(amount, &usd(), date),
        Err(ConversionError::NoExchangeRate(_))
    ));
}

#[test]
fn it_fails_with_overflow_when_amounts_leave_the_range() {
    let csv = "Date,IDR\n2023-05-04,16000\n";
    let idr = Currency { code: pack_code("IDR").unwrap(), minor_units: 2 };
    let (store, _) = ExchangeStore::sync(csv, vec![idr]).unwrap();
    let date = day_from_ymd(2023, 5, 4).unwrap();

    // The largest representable amount times 16000 cannot be
    // represented.
    let huge = Money::from_decimal(parse_decimal("1000000000000000000").unwrap(), eur());
    assert_eq!(
        store.convert_on_date(huge, &idr, date),
        Err(ConversionError::Overflow)
    );
}

#[test]
fn it_reports_sync_errors_per_cause() {
    // Empty feed: no history at all.
    assert_eq!(
        ExchangeStore::sync("", vec![usd()]).err(),
        Some(SyncError::NoEcbHistory)
    );
    // Header only: no data row.
    assert_eq!(
        ExchangeStore::sync("Date,USD\n", vec![usd()]).err(),
        Some(SyncError::NoEcbHistory)
    );
    // A duplicate date.
    assert_eq!(
        ExchangeStore::sync("Date,USD\n1999-01-04,1.2\n1999-01-04,1.3\n", vec![usd()]).err(),
        Some(SyncError::Seed)
    );
    // A malformed quote.
    assert_eq!(
        ExchangeStore::sync("Date,USD\n1999-01-04,1a.2\n", vec![usd()]).err(),
        Some(SyncError::Seed)
    );
    // A non-positive quote.
    assert_eq!(
        ExchangeStore::sync("Date,USD\n1999-01-04,0\n", vec![usd()]).err(),
        Some(SyncError::Seed)
    );
    // A malformed date.
    assert_eq!(
        ExchangeStore::sync("Date,USD\n1999-13-04,1.2\n", vec![usd()]).err(),
        Some(SyncError::Seed)
    );
    // A tracked currency with no column in the header.
    assert_eq!(
        ExchangeStore::sync("Date,USD\n1999-01-04,1.2\n", vec![brl()]).err(),
        Some(SyncError::Seed)
    );
    // The euro cannot be a tracked column.
    assert_eq!(
        ExchangeStore::sync("Date,EUR\n1999-01-04,1.2\n", vec![eur()]).err(),
        Some(SyncError::CouldNotRead)
    );
}

#[test]
fn it_accepts_feeds_in_descending_date_order() {
    // The published feed lists the newest date first.
    let csv = "Date,USD\n2023-05-05,1.1061\n2023-05-04,1.1074\n";
    let (store, latest) = ExchangeStore::sync(csv, vec![usd()]).unwrap();
    assert_eq!(latest, day_from_ymd(2023, 5, 5).unwrap());

    let amount = Money::from_decimal(parse_decimal("1000").unwrap(), eur());
    let date = day_from_ymd(2023, 5, 4).unwrap();
    let got = store.convert_on_date(amount, &usd(), date).unwrap();
    let expected = Money::from_decimal(parse_decimal("1107.4").unwrap(), usd());
    assert_eq!(expected, got);
}

#[test]
fn it_opens_valid_rows_and_rejects_invalid_ones() {
    let day4 = day_from_ymd(1999, 1, 4).unwrap();
    let day5 = day_from_ymd(1999, 1, 5).unwrap();
    let q = parse_decimal("1.1789").unwrap();

    let rows = vec![
        RateRow { day: day4, interpolated: false, cells: vec![Some(q)] },
        RateRow { day: day5, interpolated: false, cells: vec![None] },
    ];
    let store = ExchangeStore::open(vec![usd()], rows).unwrap();
    assert_eq!(store.get_latest_date(), Some(day5));

    // Out of order: refused.
    let rows = vec![
        RateRow { day: day5, interpolated: false, cells: vec![Some(q)] },
        RateRow { day: day4, interpolated: false, cells: vec![Some(q)] },
    ];
    assert_eq!(
        ExchangeStore::open(vec![usd()], rows).err(),
        Some(InitError::CouldNotRead)
    );

    // Cell count not matching the tracked set: refused.
    let rows = vec![RateRow { day: day4, interpolated: false, cells: vec![] }];
    assert_eq!(
        ExchangeStore::open(vec![usd()], rows).err(),
        Some(InitError::CouldNotRead)
    );

    // The euro as a tracked column: refused.
    assert_eq!(
        ExchangeStore::open(vec![eur()], vec![]).err(),
        Some(InitError::CouldNotRead)
    );
}

#[test]
fn it_reports_the_latest_date() {
    let csv = "Date,USD\n1999-01-04,1.1789\n1999-01-06,1.1790\n";
    let (store, latest) = ExchangeStore::sync(csv, vec![usd()]).unwrap();
    assert_eq!(store.get_latest_date(), Some(latest));
    assert_eq!(latest, day_from_ymd(1999, 1, 6).unwrap());

    let empty = ExchangeStore::open(vec![usd()], vec![]).unwrap();
    assert_eq!(empty.get_latest_date(), None);
}

#[test]
fn it_keeps_observed_rows_across_a_resync() {
    // Syncing again from an extended feed serves the old dates with the
    // very same rates and adds the new ones.
    let old_feed = "Date,USD\n2023-05-04,1.1074\n";
    let new_feed = "Date,USD\n2023-05-05,1.1061\n2023-05-04,1.1074\n";
    let (store1, _) = ExchangeStore::sync(old_feed, vec![usd()]).unwrap();
    let (store2, latest2) = ExchangeStore::sync(new_feed, vec![usd()]).unwrap();
    assert_eq!(latest2, day_from_ymd(2023, 5, 5).unwrap());

    let date = day_from_ymd(2023, 5, 4).unwrap();
    let amount = Money::from_decimal(parse_decimal("1000").unwrap(), eur());
    let from_old = store1.convert_on_date(amount, &usd(), date).unwrap();
    let amount = Money::from_decimal(parse_decimal("1000").unwrap(), eur());
    let from_new = store2.convert_on_date(amount, &usd(), date).unwrap();
    assert_eq!(from_old, from_new);

    // The new date is only served by the re-synced store.
    let newer = day_from_ymd(2023, 5, 5).unwrap();
    let amount = Money::from_decimal(parse_decimal("1000").unwrap(), eur());
    assert!(store1.convert_on_date(amount, &usd(), newer).is_err());
    let amount = Money::from_decimal(parse_decimal("1000").unwrap(), eur());
    assert_eq!(
        store2.convert_on_date(amount, &usd(), newer).unwrap(),
        Money::from_decimal(parse_decimal("1106.1").unwrap(), usd())
    );
}
