use std::io::Write;

use bestchange_api::{City, Currency, Decimal, Exchanger, FieldFault, LoadError, NotFound, Rate};

fn archive(entries: &[(&str, &[u8])]) -> Vec<u8> {
    let mut zip = zip::ZipWriter::new(std::io::Cursor::new(Vec::new()));
    let options = zip::write::SimpleFileOptions::default()
        .compression_method(zip::CompressionMethod::Stored);
    for (name, bytes) in entries {
        zip.start_file(*name, options).unwrap();
        zip.write_all(bytes).unwrap();
    }
    zip.finish().unwrap().into_inner()
}

fn sample() -> Vec<u8> {
    archive(&[
        (
            "bm_rates.dat",
            b"208;93;15;1.0;61.5;500;120;X;10;10000;1\r\n208;93;16;1;60;1000;3;0;5;500;1\r\n10;93;16;2;1;1;1;0;1;2;1\r\n",
        ),
        ("bm_cities.dat", b"1;Moscow\n2;\xcf\xe8\xf2\xe5\xf0\n"),
        ("bm_exch.dat", b"15;Alpha\n16;Beta\n"),
        ("bm_cy.dat", b"93;7;Tether\n208;1;Bitcoin\n"),
    ])
}

fn value(d: &Decimal) -> f64 {
    d.mantissa as f64 / 10f64.powi(d.scale as i32)
}

fn quotient(r: &Rate) -> f64 {
    value(&r.rate.numer) / value(&r.rate.denom)
}

#[test]
fn sample_row_fields() {
    let rates = Rate::parse("208;93;15;1.0;61.5;500;120;X;10;10000;1").unwrap();
    assert_eq!(rates.len(), 1);
    let r = &rates[0];
    assert_eq!(r.give_id, 208);
    assert_eq!(r.get_id, 93);
    assert_eq!(r.exchange_id, 15);
    assert!((quotient(r) - 1.0 / 61.5).abs() < 1e-9);
    assert!((quotient(r) - 0.01626).abs() < 1e-5);
    assert_eq!(r.rate.numer, Decimal { mantissa: 10, scale: 1 });
    assert_eq!(r.rate.denom, Decimal { mantissa: 615, scale: 1 });
    assert_eq!(r.reserve, Decimal { mantissa: 500, scale: 0 });
    assert_eq!(r.reviews, Decimal { mantissa: 120, scale: 0 });
    assert_eq!(r.min_sum, Decimal { mantissa: 10, scale: 0 });
    assert_eq!(r.max_sum, Decimal { mantissa: 10000, scale: 0 });
    assert_eq!(r.city_id, 1);
}

#[test]
fn load_counts_non_empty_lines_in_order() {
    let zip = sample();
    let rates = Rate::load(&zip).unwrap();
    assert_eq!(rates.len(), 3);
    assert_eq!(rates[0].exchange_id, 15);
    assert_eq!(rates[1].exchange_id, 16);
    assert_eq!(rates[2].give_id, 10);
    let cities = City::load(&zip).unwrap();
    assert_eq!(cities.len(), 2);
    assert_eq!(cities[0], City { id: 1, name: "Moscow".to_string() });
    let exchangers = Exchanger::load(&zip).unwrap();
    assert_eq!(exchangers.len(), 2);
    assert_eq!(exchangers[1], Exchanger { id: 16, name: "Beta".to_string() });
    let currencies = Currency::load(&zip).unwrap();
    assert_eq!(currencies.len(), 2);
    assert_eq!(currencies[1], Currency { id: 208, pos_id: 1, name: "Bitcoin".to_string() });
}

#[test]
fn names_are_decoded_from_windows_1251() {
    let cities = City::load(&sample()).unwrap();
    assert_eq!(cities[1].name, "\u{41f}\u{438}\u{442}\u{435}\u{440}");
}

#[test]
fn empty_lines_give_no_record() {
    let cities = City::parse("1;A\n\n2;B\r\n\n").unwrap();
    assert_eq!(cities.len(), 2);
    assert_eq!(cities[1].name, "B");
    assert_eq!(City::parse("").unwrap().len(), 0);
}

#[test]
fn filter_sorts_ascending_by_rate() {
    let text = "1;2;7;3;1;0;0;0;0;0;0\n1;2;8;1;4;0;0;0;0;0;0\n5;2;9;1;9;0;0;0;0;0;0\n1;2;9;1.5;3;0;0;0;0;0;0\n1;3;9;1;100;0;0;0;0;0;0";
    let rates = Rate::parse(text).unwrap();
    let found = Rate::get(&rates, 1, 2);
    let order: Vec<u16> = found.iter().map(|r| r.exchange_id).collect();
    assert_eq!(order, vec![8, 9, 7]);
    for pair in found.windows(2) {
        assert!(quotient(pair[0]) < quotient(pair[1]));
    }
    assert!(Rate::get(&rates, 2, 1).is_empty());
}

#[test]
fn filter_keeps_equal_rates_in_input_order() {
    let text = "1;2;7;2;4;0;0;0;0;0;0\n1;2;8;0.5;1;0;0;0;0;0;0\n1;2;9;1;3;0;0;0;0;0;0";
    let rates = Rate::parse(text).unwrap();
    let order: Vec<u16> = Rate::get(&rates, 1, 2).iter().map(|r| r.exchange_id).collect();
    assert_eq!(order, vec![9, 7, 8]);
}

#[test]
fn lookup_by_id() {
    let cities = City::load(&sample()).unwrap();
    assert_eq!(City::get_by_id(&cities, 1).unwrap().name, "Moscow");
    assert_eq!(City::get_by_id(&cities, 42), Err(NotFound { id: 42 }));
    let exchangers = Exchanger::load(&sample()).unwrap();
    assert_eq!(Exchanger::get_by_id(&exchangers, 15).unwrap().name, "Alpha");
    assert_eq!(Exchanger::get_by_id(&exchangers, 1), Err(NotFound { id: 1 }));
    let currencies = Currency::load(&sample()).unwrap();
    assert_eq!(Currency::get_by_id(&currencies, 93).unwrap().pos_id, 7);
    assert_eq!(Currency::get_by_id(&currencies, 0), Err(NotFound { id: 0 }));
}

#[test]
fn lookup_returns_first_match() {
    let cities = City::parse("3;First\n3;Second").unwrap();
    assert_eq!(City::get_by_id(&cities, 3).unwrap().name, "First");
}

#[test]
fn loading_twice_gives_equal_collections() {
    let zip = sample();
    assert_eq!(Rate::load(&zip).unwrap(), Rate::load(&zip).unwrap());
    assert_eq!(City::load(&zip).unwrap(), City::load(&zip).unwrap());
    assert_eq!(Exchanger::load(&zip).unwrap(), Exchanger::load(&zip).unwrap());
    assert_eq!(Currency::load(&zip).unwrap(), Currency::load(&zip).unwrap());
}

#[test]
fn non_numeric_id_fails_whole_load() {
    let zip = archive(&[("bm_cities.dat", b"1;A\nx;B\n3;C\n")]);
    assert_eq!(
        City::load(&zip),
        Err(LoadError::Row { line: 1, fault: FieldFault::Malformed(0) })
    );
    assert_eq!(
        Rate::parse("208;93;15;1;2;0;0;0;0;0;1\nabc;93;15;1;2;0;0;0;0;0;1"),
        Err(LoadError::Row { line: 1, fault: FieldFault::Malformed(0) })
    );
}

#[test]
fn row_faults() {
    assert_eq!(
        Rate::parse("1;2;3;1;0;0;0;0;0;0;0"),
        Err(LoadError::Row { line: 0, fault: FieldFault::ZeroDivisor })
    );
    assert_eq!(
        Rate::parse("1;2;3;1;2;0;0;0;0;0"),
        Err(LoadError::Row { line: 0, fault: FieldFault::TooFewFields })
    );
    assert_eq!(
        Rate::parse("1;2;3;1;2;0;0;0;1.;0;0"),
        Err(LoadError::Row { line: 0, fault: FieldFault::Malformed(8) })
    );
    assert_eq!(
        Currency::parse("1;x;Name"),
        Err(LoadError::Row { line: 0, fault: FieldFault::Malformed(1) })
    );
    assert_eq!(
        Exchanger::parse("7"),
        Err(LoadError::Row { line: 0, fault: FieldFault::TooFewFields })
    );
    assert_eq!(
        City::parse("65536;Big"),
        Err(LoadError::Row { line: 0, fault: FieldFault::Malformed(0) })
    );
}

#[test]
fn archive_errors() {
    let zip = archive(&[("other.dat", b"1;A\n")]);
    assert_eq!(City::load(&zip), Err(LoadError::MissingEntry));
    assert_eq!(City::load(b"not a zip archive"), Err(LoadError::Archive));
}

#[test]
fn number_fields() {
    let v = |s: &str| s.chars().collect::<Vec<char>>();
    assert_eq!(bestchange_api::parse_id(&v("65535")), Some(65535));
    assert_eq!(bestchange_api::parse_id(&v("+7")), Some(7));
    assert_eq!(bestchange_api::parse_id(&v("+")), None);
    assert_eq!(bestchange_api::parse_id(&v("-1")), None);
    assert_eq!(bestchange_api::parse_id(&v("")), None);
    assert_eq!(
        bestchange_api::parse_decimal(&v("12.034")),
        Some(Decimal { mantissa: 12034, scale: 3 })
    );
    assert_eq!(bestchange_api::parse_decimal(&v("1.2.3")), None);
    assert_eq!(bestchange_api::parse_decimal(&v(".5")), None);
    assert_eq!(bestchange_api::parse_decimal(&v("18446744073709551616")), None);
    assert_eq!(
        bestchange_api::parse_decimal(&v("18446744073709551615")),
        Some(Decimal { mantissa: u64::MAX, scale: 0 })
    );
}

#[test]
fn split_keeps_empty_pieces() {
    let v = |s: &str| s.chars().collect::<Vec<char>>();
    let pieces = bestchange_api::split_on(&v(";a;;b;"), ';');
    assert_eq!(pieces, vec![v(""), v("a"), v(""), v("b"), v("")]);
}

#[test]
fn ratio_order_is_exact() {
    let d = |mantissa: u64, scale: u32| Decimal { mantissa, scale };
    let third = bestchange_api::Ratio { numer: d(1, 0), denom: d(3, 0) };
    let half = bestchange_api::Ratio { numer: d(5, 1), denom: d(100, 2) };
    let also_half = bestchange_api::Ratio { numer: d(1, 0), denom: d(2, 0) };
    assert!(third.le(&half));
    assert!(!half.le(&third));
    assert!(half.le(&also_half));
    assert!(also_half.le(&half));
    let tiny = bestchange_api::Ratio { numer: d(1, 30), denom: d(u64::MAX, 0) };
    let big = bestchange_api::Ratio { numer: d(u64::MAX, 0), denom: d(1, 30) };
    assert!(tiny.le(&big));
    assert!(!big.le(&tiny));
}

#[test]
fn byte_order_mark_is_not_sniffed() {
    let zip = archive(&[("bm_cities.dat", b"\xef\xbb\xbf1;A\n")]);
    assert_eq!(
        City::load(&zip),
        Err(LoadError::Row { line: 0, fault: FieldFault::Malformed(0) })
    );
}

#[test]
fn zero_divisor_fails_rates_load() {
    let zip = archive(&[("bm_rates.dat", b"208;93;15;1.0;0;500;120;X;10;10000;1\n")]);
    assert_eq!(
        Rate::load(&zip),
        Err(LoadError::Row { line: 0, fault: FieldFault::ZeroDivisor })
    );
}
