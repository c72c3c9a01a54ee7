use tax_redflush::decimal::Decimal;
use tax_redflush::fields::{parse_decimal, parse_int, render_decimal, render_int};

fn text(b: Vec<u8>) -> String {
    String::from_utf8(b).unwrap()
}

#[test]
fn decimal_text_has_eight_fraction_digits() {
    assert_eq!(text(render_decimal(Decimal::from_whole(100))), "100.00000000");
    assert_eq!(text(render_decimal(Decimal::from_units(-1))), "-0.00000001");
    assert_eq!(text(render_decimal(Decimal::from_units(1_250_000_000))), "12.50000000");
    assert_eq!(text(render_decimal(Decimal::zero())), "0.00000000");
}

#[test]
fn integer_text() {
    assert_eq!(text(render_int(0)), "0");
    assert_eq!(text(render_int(-42)), "-42");
    assert_eq!(text(render_int(i64::MIN)), "-9223372036854775808");
}

#[test]
fn decimal_parse_accepts_only_canonical_text() {
    assert_eq!(parse_decimal(b"12.50000000"), Some(Decimal::from_units(1_250_000_000)));
    assert_eq!(parse_decimal(b"-0.00000001"), Some(Decimal::from_units(-1)));
    assert_eq!(parse_decimal(b"12.5"), None);
    assert_eq!(parse_decimal(b"12"), None);
    assert_eq!(parse_decimal(b"1a.00000000"), None);
    assert_eq!(parse_decimal(b".000000001"), None);
    assert_eq!(parse_decimal(b"9999999999999999999999999999999.00000000"), None);
}

#[test]
fn integer_parse() {
    assert_eq!(parse_int(b"17"), Some(17));
    assert_eq!(parse_int(b"-9223372036854775808"), Some(i64::MIN));
    assert_eq!(parse_int(b"9223372036854775808"), None);
    assert_eq!(parse_int(b"-"), None);
    assert_eq!(parse_int(b""), None);
}

#[test]
fn extreme_values_round_trip() {
    for u in [i128::MIN, i128::MAX, 0, -99_999_999, 100_000_000] {
        let d = Decimal::from_units(u);
        assert_eq!(parse_decimal(&render_decimal(d)), Some(d));
    }
    for v in [i64::MIN, i64::MAX, 0, -1] {
        assert_eq!(parse_int(&render_int(v)), Some(v));
    }
}

#[test]
fn csv_spool_round_trip() {
    let rows: Vec<(i64, &str, Decimal, Option<Decimal>)> = vec![
        (1, "X,1", Decimal::from_whole(100), None),
        (2, "Y \"q\"", Decimal::from_units(-5), Some(Decimal::from_units(123))),
    ];
    let mut w = csv::Writer::from_writer(Vec::new());
    for (id, sku, amount, price) in &rows {
        let fields: Vec<Vec<u8>> = vec![
            render_int(*id),
            sku.as_bytes().to_vec(),
            render_decimal(*amount),
            price.map(render_decimal).unwrap_or_default(),
        ];
        w.write_record(&fields).unwrap();
    }
    let bytes = w.into_inner().unwrap();
    let mut r = csv::ReaderBuilder::new().has_headers(false).from_reader(&bytes[..]);
    let mut back = Vec::new();
    for rec in r.byte_records() {
        let rec = rec.unwrap();
        let price = if rec[3].is_empty() { None } else { Some(parse_decimal(&rec[3]).unwrap()) };
        back.push((parse_int(&rec[0]).unwrap(), String::from_utf8(rec[1].to_vec()).unwrap(), parse_decimal(&rec[2]).unwrap(), price));
    }
    assert_eq!(back.len(), 2);
    for ((id, sku, amount, price), (bid, bsku, bamount, bprice)) in rows.iter().zip(back.iter()) {
        assert_eq!(id, bid);
        assert_eq!(*sku, bsku.as_str());
        assert_eq!(amount, bamount);
        assert_eq!(price, bprice);
    }
}
