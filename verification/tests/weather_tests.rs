use lbbroker::weather::{
    parse_country, parse_zip_code, subscription_topic, update_message, Country, CountryError,
    ZipCode, ZipCodeError,
};

#[test]
fn parse_country_accepts_the_six_spellings() {
    for s in [&b"pt"[..], b"Pt", b"PT"] {
        assert_eq!(parse_country(&s.to_vec()), Ok(Country::Pt));
    }
    for s in [&b"us"[..], b"Us", b"US"] {
        assert_eq!(parse_country(&s.to_vec()), Ok(Country::Us));
    }
    for s in [&b"pT"[..], b"uS", b"de", b"", b"ptx"] {
        assert_eq!(parse_country(&s.to_vec()), Err(CountryError::Unsupported));
    }
}

#[test]
fn parse_zip_code_reads_both_countries() {
    assert_eq!(
        parse_zip_code(&b"PT:1234".to_vec()),
        Ok(ZipCode { country: Country::Pt, zip: 1234 })
    );
    assert_eq!(
        parse_zip_code(&b"PT:0042".to_vec()),
        Ok(ZipCode { country: Country::Pt, zip: 42 })
    );
    assert_eq!(
        parse_zip_code(&b"US:99999".to_vec()),
        Ok(ZipCode { country: Country::Us, zip: 99999 })
    );
    assert_eq!(
        parse_zip_code(&b"US:7".to_vec()),
        Ok(ZipCode { country: Country::Us, zip: 7 })
    );
    assert_eq!(
        parse_zip_code(&b"PT:+999".to_vec()),
        Ok(ZipCode { country: Country::Pt, zip: 999 })
    );
}

#[test]
fn parse_zip_code_names_each_refusal() {
    assert_eq!(
        parse_zip_code(&vec![b'P', b'T', b':', 0xff]),
        Err(ZipCodeError::NotAscii)
    );
    assert_eq!(parse_zip_code(&b"ab".to_vec()), Err(ZipCodeError::TooShort));
    assert_eq!(parse_zip_code(&b"".to_vec()), Err(ZipCodeError::TooShort));
    assert_eq!(
        parse_zip_code(&b"PT:12345".to_vec()),
        Err(ZipCodeError::TooLong)
    );
    assert_eq!(
        parse_zip_code(&b"US:123456".to_vec()),
        Err(ZipCodeError::TooLong)
    );
    assert_eq!(
        parse_zip_code(&b"PT:12a4".to_vec()),
        Err(ZipCodeError::BadNumber)
    );
    assert_eq!(parse_zip_code(&b"PT:".to_vec()), Err(ZipCodeError::BadNumber));
    assert_eq!(
        parse_zip_code(&b"DE:123".to_vec()),
        Err(ZipCodeError::UnknownPrefix)
    );
}

#[test]
fn format_pads_to_the_country_width() {
    let z = ZipCode { country: Country::Pt, zip: 42 };
    assert_eq!(z.format(), b"PT:0042".to_vec());
    let z = ZipCode { country: Country::Us, zip: 1234 };
    assert_eq!(z.format(), b"US:01234".to_vec());
    let z = ZipCode { country: Country::Us, zip: 99999 };
    assert_eq!(z.format(), b"US:99999".to_vec());
}

#[test]
fn format_then_parse_recovers_the_zip_code() {
    for z in [
        ZipCode { country: Country::Pt, zip: 0 },
        ZipCode { country: Country::Pt, zip: 9999 },
        ZipCode { country: Country::Us, zip: 0 },
        ZipCode { country: Country::Us, zip: 12345 },
        ZipCode { country: Country::Us, zip: 99999 },
    ] {
        assert_eq!(parse_zip_code(&z.format()), Ok(z));
    }
}

#[test]
fn update_message_writes_the_exact_text() {
    let zone = ZipCode { country: Country::Us, zip: 1234 }.format();
    let expected =
        format!("Update for US:01234:\n  Temperature: -5ºC\n  Humidity: 42%.\n").into_bytes();
    assert_eq!(update_message(&zone, -5, 42), expected);

    let zone = ZipCode { country: Country::Pt, zip: 7 }.format();
    let expected =
        format!("Update for PT:0007:\n  Temperature: 39ºC\n  Humidity: 100%.\n").into_bytes();
    assert_eq!(update_message(&zone, 39, 100), expected);
}

#[test]
fn subscription_topic_is_a_prefix_of_every_matching_update() {
    let zone = ZipCode { country: Country::Pt, zip: 321 }.format();
    let topic = subscription_topic(&zone);
    assert_eq!(topic, b"Update for PT:0321:\n".to_vec());
    for t in [-14, 0, 39] {
        for h in [0, 55, 100] {
            let update = update_message(&zone, t, h);
            assert!(update.starts_with(&topic));
        }
    }
    // An update for another zone does not start with the topic.
    let other = ZipCode { country: Country::Pt, zip: 322 }.format();
    assert!(!update_message(&other, 0, 0).starts_with(&topic));
}
