use moneyman::currency::{eur, pack_code, Currency, CurrencyParser, EUR_CODE};
use moneyman::dates::{day_from_ymd, parse_ymd};
use moneyman::decimal::{parse_decimal, Dec};
use moneyman::rate::{decode_quote, ExchangeRate, RateError};

#[test]
fn exchange_rate_it_parses_rate_into_bidirectional_rates() {
    let usd = Currency { code: pack_code("USD").unwrap(), minor_units: 2 };
    let (rate1, rate2) = decode_quote(usd, "1.1037").unwrap();
    let quote = parse_decimal("1.1037").unwrap();
    let expected2 = ExchangeRate::new(eur(), usd, quote).unwrap();
    let expected1 = expected2.inverse();

    assert_eq!(rate1, expected1);
    assert_eq!(rate2, expected2);
}

#[test]
fn persistence_it_parses_rate_into_bidirectional_rates() {
    let usd = Currency { code: pack_code("USD").unwrap(), minor_units: 2 };
    let (rate1, rate2) = decode_quote(usd, "1.1037").unwrap();
    let quote = parse_decimal("1.1037").unwrap();
    let expected2 = ExchangeRate::new(eur(), usd, quote).unwrap();
    let expected1 = expected2.inverse();

    assert_eq!(rate1, expected1);
    assert_eq!(rate2, expected2);
}

#[test]
fn it_panics_if_rate_is_invalid_when_parsing() {
    // A malformed quote is a typed error, never a crash.
    let usd = Currency { code: pack_code("USD").unwrap(), minor_units: 2 };
    let result = decode_quote(usd, "1a.1037");

    assert!(result.is_err());
    assert_eq!(result.err(), Some(RateError::MalformedRate));
}

#[test]
fn it_expands_quotes_into_exact_reciprocal_rates() {
    // The factors of the decoded pair multiply to exactly one.
    let usd = Currency { code: pack_code("USD").unwrap(), minor_units: 2 };
    let (to_eur, from_eur) = decode_quote(usd, "1.1037").unwrap();

    assert_eq!(from_eur.num, 11037);
    assert_eq!(from_eur.den, 10000);
    assert_eq!(to_eur.num, 10000);
    assert_eq!(to_eur.den, 11037);
    assert_eq!(to_eur.num * from_eur.num, to_eur.den * from_eur.den);
    assert_eq!(to_eur.base, usd);
    assert_eq!(to_eur.counter, eur());
    assert_eq!(from_eur.base, eur());
    assert_eq!(from_eur.counter, usd);
}

#[test]
fn it_rejects_quotes_that_are_not_positive_decimals() {
    let usd = Currency { code: pack_code("USD").unwrap(), minor_units: 2 };
    for bad in ["", "N/A", "0", "-1.2", "1.", ".5", "1..2", "1,2"] {
        assert_eq!(
            decode_quote(usd, bad).err(),
            Some(RateError::MalformedRate),
            "quote {:?} should be malformed",
            bad
        );
    }
    // Decoding a quote for the euro itself is a same-currency error.
    assert_eq!(decode_quote(eur(), "1.1037").err(), Some(RateError::SameCurrency));
}

#[test]
fn it_parses_exact_decimals_canonically() {
    assert_eq!(parse_decimal("1.1037"), Some(Dec { m: 11037, s: 4 }));
    assert_eq!(parse_decimal("0.5"), Some(Dec { m: 5, s: 1 }));
    assert_eq!(parse_decimal("007"), Some(Dec { m: 7, s: 0 }));
    assert_eq!(parse_decimal("-1.50"), Some(Dec { m: -15, s: 1 }));
    assert_eq!(parse_decimal("+2.25"), Some(Dec { m: 225, s: 2 }));
    assert_eq!(parse_decimal("0"), Some(Dec { m: 0, s: 0 }));
    assert_eq!(parse_decimal("-0.000"), Some(Dec { m: 0, s: 0 }));
    assert_eq!(parse_decimal("1000"), Some(Dec { m: 1000, s: 0 }));
    // Up to eighteen fractional digits and the mantissa cap fit.
    assert_eq!(
        parse_decimal("0.000000000000000001"),
        Some(Dec { m: 1, s: 18 })
    );
    assert_eq!(
        parse_decimal("1000000000000000000"),
        Some(Dec { m: 1_000_000_000_000_000_000, s: 0 })
    );
}

#[test]
fn it_rejects_text_that_is_no_decimal_in_range() {
    for bad in [
        "",
        " 1",
        "1 ",
        "1.",
        ".5",
        "-",
        "+",
        "1..2",
        "1a.2",
        "0x10",
        "1,5",
        // A nineteenth fractional digit.
        "0.0000000000000000001",
        // Above the mantissa cap.
        "1000000000000000001",
        "9999999999999999999",
    ] {
        assert_eq!(parse_decimal(bad), None, "text {:?} should be rejected", bad);
    }
}

#[test]
fn it_packs_and_validates_currency_codes() {
    assert_eq!(pack_code("EUR"), Some(EUR_CODE));
    assert_eq!(pack_code("eur"), Some(EUR_CODE));
    assert_eq!(pack_code("Eur"), Some(EUR_CODE));
    assert!(pack_code("USD").is_some());
    assert_ne!(pack_code("USD"), pack_code("JPY"));
    assert_eq!(pack_code("US"), None);
    assert_eq!(pack_code("USDX"), None);
    assert_eq!(pack_code("U5D"), None);
    assert_eq!(pack_code(""), None);
}

#[test]
fn it_looks_codes_up_among_known_currencies() {
    let usd = Currency { code: pack_code("USD").unwrap(), minor_units: 2 };
    let known = vec![eur(), usd];
    let parser = CurrencyParser;

    assert_eq!(parser.parse_ref("usd", known.as_slice()), Some(usd));
    assert_eq!(parser.parse_ref("USD", known.as_slice()), Some(usd));
    assert_eq!(parser.parse_ref("EUR", known.as_slice()), Some(eur()));
    assert_eq!(parser.parse_ref("BRL", known.as_slice()), None);
    assert_eq!(parser.parse_ref("nope", known.as_slice()), None);
}

#[test]
fn it_maps_civil_dates_to_consecutive_ordinals() {
    let d4 = day_from_ymd(1999, 1, 4).unwrap();
    let d5 = day_from_ymd(1999, 1, 5).unwrap();
    let d6 = day_from_ymd(1999, 1, 6).unwrap();
    assert_eq!(d4.ordinal + 1, d5.ordinal);
    assert_eq!(d5.ordinal + 1, d6.ordinal);
    // A month boundary is still one day apart.
    let jan31 = day_from_ymd(2023, 1, 31).unwrap();
    let feb1 = day_from_ymd(2023, 2, 1).unwrap();
    assert_eq!(jan31.ordinal + 1, feb1.ordinal);
    // Invalid civil dates do not exist.
    assert_eq!(day_from_ymd(2023, 2, 30), None);
    assert_eq!(day_from_ymd(2023, 13, 1), None);
    assert_eq!(day_from_ymd(2023, 0, 1), None);
}

#[test]
fn it_parses_dates_in_feed_format() {
    assert_eq!(parse_ymd("1999-01-04"), day_from_ymd(1999, 1, 4));
    assert_eq!(parse_ymd("2023-05-04"), day_from_ymd(2023, 5, 4));
    assert_eq!(parse_ymd("1999-1-4"), None);
    assert_eq!(parse_ymd("1999/01/04"), None);
    assert_eq!(parse_ymd("1999-02-30"), None);
    assert_eq!(parse_ymd(""), None);
    assert_eq!(parse_ymd("19990104"), None);
}
