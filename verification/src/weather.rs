//! Weather-update text: zip codes, update messages, subscription topics.
//!
//! Publishers broadcast one text per update; subscribers ask the transport
//! to filter by a byte-prefix topic. This module holds the verified text
//! logic: reading a zip code, writing its canonical zero-padded form,
//! writing an update message, and the subscription topic that matches
//! exactly the updates for one zip code (proved as a prefix law).

use vstd::prelude::*;
use crate::digits::{
    all_digits, dec_bytes, dec_bytes_padded, dec_bytes_signed, dec_value, digits_part, fmt_i32,
    fmt_u64, fmt_u64_padded, is_digit, lemma_dec_bytes_digits, lemma_dec_bytes_len,
    lemma_dec_value_bound, lemma_dec_value_of_dec_bytes, lemma_dec_value_zeros_prefix,
    lemma_pow10_mono, lemma_pow10_small, parse_u64, pow10,
};

verus! {

#[derive(Debug, Clone, Copy, PartialEq, Eq, Structural)]
pub enum Country {
    Pt,
    Us,
}

/// A zip code: a country and a number, canonically written as the country
/// prefix followed by the zero-padded number.
#[derive(Debug, Clone, Copy, PartialEq, Eq, Structural)]
pub struct ZipCode {
    pub country: Country,
    pub zip: u32,
}

#[derive(Debug, Clone, Copy, PartialEq, Eq, Structural)]
pub enum ZipCodeError {
    /// The text holds a byte outside ASCII.
    NotAscii,
    /// The text is shorter than a country prefix.
    TooShort,
    /// The text is longer than the country's zip codes allow.
    TooLong,
    /// The text after the prefix is not a number in range.
    BadNumber,
    /// The text starts with no known country prefix.
    UnknownPrefix,
}

#[derive(Debug, Clone, Copy, PartialEq, Eq, Structural)]
pub enum CountryError {
    Unsupported,
}

pub open spec fn is_ascii_bytes(s: Seq<u8>) -> bool {
    forall|i: int| 0 <= i < s.len() ==> #[trigger] s[i] < 0x80
}

/// "PT:"
pub open spec fn pt_prefix() -> Seq<u8> {
    seq![0x50u8, 0x54u8, 0x3au8]
}

/// "US:"
pub open spec fn us_prefix() -> Seq<u8> {
    seq![0x55u8, 0x53u8, 0x3au8]
}

impl ZipCode {
    pub open spec fn prefix_of(country: Country) -> Seq<u8> {
        match country {
            Country::Pt => pt_prefix(),
            Country::Us => us_prefix(),
        }
    }

    /// Digit width of a country's zip codes.
    pub open spec fn width_of(country: Country) -> nat {
        match country {
            Country::Pt => 4,
            Country::Us => 5,
        }
    }

    /// The largest zip number a country's width can carry.
    pub open spec fn limit_of(country: Country) -> nat {
        (pow10(Self::width_of(country)) - 1) as nat
    }

    pub open spec fn wf(self) -> bool {
        self.zip <= Self::limit_of(self.country)
    }

    /// The canonical text of a zip code: the country prefix, then the
    /// number zero-padded to the country's width.
    pub open spec fn text(self) -> Seq<u8> {
        Self::prefix_of(self.country) + dec_bytes_padded(
            self.zip as nat,
            Self::width_of(self.country),
        )
    }
}

/// What reading a zip code text means: an ASCII check, a country prefix, a
/// length cap of prefix plus width, then the number (an optional plus sign,
/// digits, value in range).
pub open spec fn spec_parse_zip(s: Seq<u8>) -> Result<ZipCode, ZipCodeError> {
    if !is_ascii_bytes(s) {
        Err(ZipCodeError::NotAscii)
    } else if s.len() < 3 {
        Err(ZipCodeError::TooShort)
    } else if s.take(3) == pt_prefix() {
        spec_parse_zip_number(s, Country::Pt)
    } else if s.take(3) == us_prefix() {
        spec_parse_zip_number(s, Country::Us)
    } else {
        Err(ZipCodeError::UnknownPrefix)
    }
}

pub open spec fn spec_parse_zip_number(s: Seq<u8>, country: Country) -> Result<
    ZipCode,
    ZipCodeError,
> {
    if s.len() > 3 + ZipCode::width_of(country) {
        Err(ZipCodeError::TooLong)
    } else {
        let d = digits_part(s.skip(3));
        if d.len() > 0 && all_digits(d) && dec_value(d) <= u32::MAX {
            Ok(ZipCode { country, zip: dec_value(d) as u32 })
        } else {
            Err(ZipCodeError::BadNumber)
        }
    }
}

/// What reading a country code means: the six exact spellings accepted.
pub open spec fn spec_parse_country(s: Seq<u8>) -> Result<Country, CountryError> {
    if s == seq![0x70u8, 0x74u8] || s == seq![0x50u8, 0x74u8] || s == seq![0x50u8, 0x54u8] {
        Ok(Country::Pt)
    } else if s == seq![0x75u8, 0x73u8] || s == seq![0x55u8, 0x73u8] || s == seq![0x55u8, 0x53u8] {
        Ok(Country::Us)
    } else {
        Err(CountryError::Unsupported)
    }
}

/// Whether the first three bytes are exactly `p0 p1 p2`.
fn prefix3_is(s: &Vec<u8>, p0: u8, p1: u8, p2: u8) -> (r: bool)
    requires
        s@.len() >= 3,
    ensures
        r == (s@.take(3) == seq![p0, p1, p2]),
{
    let r = s[0] == p0 && s[1] == p1 && s[2] == p2;
    proof {
        if r {
            assert(s@.take(3) =~= seq![p0, p1, p2]);
        }
        if s@.take(3) == seq![p0, p1, p2] {
            assert(s@[0] == s@.take(3)[0] && s@[1] == s@.take(3)[1] && s@[2] == s@.take(3)[2]);
        }
    }
    r
}

/// Whether the bytes are exactly `p0 p1`.
fn bytes_are2(s: &Vec<u8>, p0: u8, p1: u8) -> (r: bool)
    ensures
        r == (s@ == seq![p0, p1]),
{
    let r = s.len() == 2 && s[0] == p0 && s[1] == p1;
    proof {
        if r {
            assert(s@ =~= seq![p0, p1]);
        }
        if s@ == seq![p0, p1] {
            assert(s@.len() == 2 && s@[0] == p0 && s@[1] == p1);
        }
    }
    r
}

/// Reads a country code: `pt`, `Pt`, `PT`, `us`, `Us` or `US`.
pub fn parse_country(s: &Vec<u8>) -> (r: Result<Country, CountryError>)
    ensures
        r == spec_parse_country(s@),
{
    if bytes_are2(s, 0x70, 0x74) || bytes_are2(s, 0x50, 0x74) || bytes_are2(s, 0x50, 0x54) {
        Ok(Country::Pt)
    } else if bytes_are2(s, 0x75, 0x73) || bytes_are2(s, 0x55, 0x73) || bytes_are2(s, 0x55, 0x53) {
        Ok(Country::Us)
    } else {
        Err(CountryError::Unsupported)
    }
}

/// Reads a zip code text. Returns exactly what the specification says, and
/// every accepted zip code is within its country's width.
pub fn parse_zip_code(s: &Vec<u8>) -> (r: Result<ZipCode, ZipCodeError>)
    ensures
        r == spec_parse_zip(s@),
        r matches Ok(z) ==> z.wf(),
{
    let n = s.len();
    let mut i: usize = 0;
    while i < n
        invariant
            n == s@.len(),
            i <= n,
            forall|j: int| 0 <= j < i ==> #[trigger] s@[j] < 0x80,
        decreases n - i,
    {
        if s[i] >= 0x80 {
            return Err(ZipCodeError::NotAscii);
        }
        i += 1;
    }
    if n < 3 {
        return Err(ZipCodeError::TooShort);
    }
    let country: Country = if prefix3_is(s, 0x50, 0x54, 0x3a) {
        Country::Pt
    } else if prefix3_is(s, 0x55, 0x53, 0x3a) {
        Country::Us
    } else {
        return Err(ZipCodeError::UnknownPrefix);
    };
    let width: usize = match country {
        Country::Pt => 4,
        Country::Us => 5,
    };
    if n > 3 + width {
        return Err(ZipCodeError::TooLong);
    }
    let mut rest: Vec<u8> = Vec::new();
    let mut j: usize = 3;
    while j < n
        invariant
            3 <= j <= n,
            n == s@.len(),
            rest@.len() == j - 3,
            forall|k: int| 0 <= k < j - 3 ==> #[trigger] rest@[k] == s@[k + 3],
        decreases n - j,
    {
        rest.push(s[j]);
        j += 1;
    }
    proof {
        assert(rest@ =~= s@.skip(3));
    }
    let ghost d = digits_part(s@.skip(3));
    match parse_u64(&rest) {
        None => Err(ZipCodeError::BadNumber),
        Some(v) => {
            if v > 0xFFFF_FFFF {
                Err(ZipCodeError::BadNumber)
            } else {
                proof {
                    lemma_dec_value_bound(d);
                    lemma_pow10_mono(d.len(), ZipCode::width_of(country));
                    lemma_pow10_small();
                }
                Ok(ZipCode { country, zip: v as u32 })
            }
        },
    }
}

impl ZipCode {
    /// Writes the canonical text: the country prefix, then the number
    /// zero-padded to the country's width.
    pub fn format(&self) -> (r: Vec<u8>)
        ensures
            r@ == self.text(),
    {
        let mut r: Vec<u8> = Vec::new();
        let width: usize;
        match self.country {
            Country::Pt => {
                r.push(0x50);
                r.push(0x54);
                r.push(0x3a);
                width = 4;
            },
            Country::Us => {
                r.push(0x55);
                r.push(0x53);
                r.push(0x3a);
                width = 5;
            },
        }
        proof {
            assert(r@ =~= ZipCode::prefix_of(self.country));
        }
        let mut digits = fmt_u64_padded(self.zip as u64, width);
        r.append(&mut digits);
        proof {
            assert(r@ =~= self.text());
        }
        r
    }
}

/// Writing a zip code and reading the text back recovers it, for every zip
/// code within its country's width.
pub proof fn lemma_zip_code_round_trip(z: ZipCode)
    requires
        z.wf(),
    ensures
        spec_parse_zip(z.text()) == Ok::<ZipCode, ZipCodeError>(z),
{
    let t = z.text();
    let width = ZipCode::width_of(z.country);
    let padded = dec_bytes_padded(z.zip as nat, width);
    lemma_dec_bytes_digits(z.zip as nat);
    lemma_pow10_small();
    lemma_dec_bytes_len(z.zip as nat, width);
    assert(padded.len() == width);
    assert(all_digits(padded)) by {
        if dec_bytes(z.zip as nat).len() < width {
            let zeros = (width - dec_bytes(z.zip as nat).len()) as nat;
            assert forall|i: int| 0 <= i < padded.len() implies is_digit(#[trigger] padded[i]) by {
                if i >= zeros {
                    assert(padded[i] == dec_bytes(z.zip as nat)[i - zeros]);
                }
            }
        }
    };
    assert(is_ascii_bytes(t)) by {
        assert forall|i: int| 0 <= i < t.len() implies #[trigger] t[i] < 0x80 by {
            if i >= 3 {
                assert(t[i] == padded[i - 3]);
                assert(is_digit(padded[i - 3]));
            } else {
                assert(t[i] == ZipCode::prefix_of(z.country)[i]);
            }
        }
    };
    assert(t.len() == 3 + width);
    assert(t.take(3) =~= ZipCode::prefix_of(z.country));
    assert(pt_prefix() != us_prefix()) by {
        assert(pt_prefix()[0] != us_prefix()[0]);
    };
    assert(t.skip(3) =~= padded);
    assert(digits_part(padded) == padded) by {
        assert(is_digit(padded[0]));
    };
    if dec_bytes(z.zip as nat).len() < width {
        let zeros = (width - dec_bytes(z.zip as nat).len()) as nat;
        lemma_dec_value_zeros_prefix(dec_bytes(z.zip as nat), zeros);
        assert(padded =~= Seq::new(zeros, |i: int| 0x30u8) + dec_bytes(z.zip as nat));
    }
    lemma_dec_value_of_dec_bytes(z.zip as nat);
    assert(dec_value(padded) == z.zip);
    assert(spec_parse_zip(t) == Ok::<ZipCode, ZipCodeError>(ZipCode { country: z.country, zip: z.zip }));
    assert(z == ZipCode { country: z.country, zip: z.zip });
}

/// "Update for "
pub open spec fn update_prefix() -> Seq<u8> {
    seq![0x55u8, 0x70u8, 0x64u8, 0x61u8, 0x74u8, 0x65u8, 0x20u8, 0x66u8, 0x6fu8, 0x72u8, 0x20u8]
}

/// ":\n  Temperature: "
pub open spec fn temperature_label() -> Seq<u8> {
    seq![
        0x3au8,
        0x0au8,
        0x20u8,
        0x20u8,
        0x54u8,
        0x65u8,
        0x6du8,
        0x70u8,
        0x65u8,
        0x72u8,
        0x61u8,
        0x74u8,
        0x75u8,
        0x72u8,
        0x65u8,
        0x3au8,
        0x20u8,
    ]
}

/// The degree sign (in UTF-8), "C", then "\n  Humidity: "
pub open spec fn humidity_label() -> Seq<u8> {
    seq![
        0xc2u8,
        0xbau8,
        0x43u8,
        0x0au8,
        0x20u8,
        0x20u8,
        0x48u8,
        0x75u8,
        0x6du8,
        0x69u8,
        0x64u8,
        0x69u8,
        0x74u8,
        0x79u8,
        0x3au8,
        0x20u8,
    ]
}

/// "%.\n"
pub open spec fn update_tail() -> Seq<u8> {
    seq![0x25u8, 0x2eu8, 0x0au8]
}

/// ":\n"
pub open spec fn topic_tail() -> Seq<u8> {
    seq![0x3au8, 0x0au8]
}

/// One full weather update for the zone written as `zone` (a zip code
/// text): the update prefix, the zone, the temperature and the relative
/// humidity, each with its label.
pub open spec fn update_text(zone: Seq<u8>, temperature: int, humidity: nat) -> Seq<u8> {
    update_prefix() + zone + temperature_label() + dec_bytes_signed(temperature)
        + humidity_label() + dec_bytes(humidity) + update_tail()
}

/// The subscription topic for one zone: every update for the zone starts
/// with these bytes, and with no others.
pub open spec fn topic_text(zone: Seq<u8>) -> Seq<u8> {
    update_prefix() + zone + topic_tail()
}

fn copy_bytes(src: &Vec<u8>) -> (r: Vec<u8>)
    ensures
        r@ == src@,
{
    let mut r: Vec<u8> = Vec::new();
    let mut i: usize = 0;
    while i < src.len()
        invariant
            i <= src@.len(),
            r@.len() == i,
            forall|k: int| 0 <= k < i ==> #[trigger] r@[k] == src@[k],
        decreases src@.len() - i,
    {
        r.push(src[i]);
        i += 1;
    }
    proof {
        assert(r@ =~= src@);
    }
    r
}

fn push_update_prefix(dst: &mut Vec<u8>)
    ensures
        final(dst)@ == old(dst)@ + update_prefix(),
{
    dst.push(0x55);
    dst.push(0x70);
    dst.push(0x64);
    dst.push(0x61);
    dst.push(0x74);
    dst.push(0x65);
    dst.push(0x20);
    dst.push(0x66);
    dst.push(0x6f);
    dst.push(0x72);
    dst.push(0x20);
    proof {
        assert(dst@ =~= old(dst)@ + update_prefix());
    }
}

fn push_temperature_label(dst: &mut Vec<u8>)
    ensures
        final(dst)@ == old(dst)@ + temperature_label(),
{
    dst.push(0x3a);
    dst.push(0x0a);
    dst.push(0x20);
    dst.push(0x20);
    dst.push(0x54);
    dst.push(0x65);
    dst.push(0x6d);
    dst.push(0x70);
    dst.push(0x65);
    dst.push(0x72);
    dst.push(0x61);
    dst.push(0x74);
    dst.push(0x75);
    dst.push(0x72);
    dst.push(0x65);
    dst.push(0x3a);
    dst.push(0x20);
    proof {
        assert(dst@ =~= old(dst)@ + temperature_label());
    }
}

fn push_humidity_label(dst: &mut Vec<u8>)
    ensures
        final(dst)@ == old(dst)@ + humidity_label(),
{
    dst.push(0xc2);
    dst.push(0xba);
    dst.push(0x43);
    dst.push(0x0a);
    dst.push(0x20);
    dst.push(0x20);
    dst.push(0x48);
    dst.push(0x75);
    dst.push(0x6d);
    dst.push(0x69);
    dst.push(0x64);
    dst.push(0x69);
    dst.push(0x74);
    dst.push(0x79);
    dst.push(0x3a);
    dst.push(0x20);
    proof {
        assert(dst@ =~= old(dst)@ + humidity_label());
    }
}

/// Writes one full weather update for `zone`.
pub fn update_message(zone: &Vec<u8>, temperature: i32, humidity: u32) -> (r: Vec<u8>)
    requires
        temperature > i32::MIN,
    ensures
        r@ == update_text(zone@, temperature as int, humidity as nat),
{
    let mut r: Vec<u8> = Vec::new();
    push_update_prefix(&mut r);
    let mut zone_bytes = copy_bytes(zone);
    r.append(&mut zone_bytes);
    push_temperature_label(&mut r);
    let mut t = fmt_i32(temperature);
    r.append(&mut t);
    push_humidity_label(&mut r);
    let mut h = fmt_u64(humidity as u64);
    r.append(&mut h);
    r.push(0x25);
    r.push(0x2e);
    r.push(0x0a);
    proof {
        assert(r@ =~= update_text(zone@, temperature as int, humidity as nat));
    }
    r
}

/// Writes the subscription topic for `zone`.
pub fn subscription_topic(zone: &Vec<u8>) -> (r: Vec<u8>)
    ensures
        r@ == topic_text(zone@),
{
    let mut r: Vec<u8> = Vec::new();
    push_update_prefix(&mut r);
    let mut zone_bytes = copy_bytes(zone);
    r.append(&mut zone_bytes);
    r.push(0x3a);
    r.push(0x0a);
    proof {
        assert(r@ =~= topic_text(zone@));
    }
    r
}

/// Topic matching law: the subscription topic for a zone is a prefix of
/// every update for that zone, so a byte-prefix filter on the topic passes
/// exactly the zone's updates through.
pub proof fn lemma_topic_matches_updates(zone: Seq<u8>, temperature: int, humidity: nat)
    ensures
        update_text(zone, temperature, humidity).take(topic_text(zone).len() as int) == topic_text(
            zone,
        ),
{
    let u = update_text(zone, temperature, humidity);
    let t = topic_text(zone);
    assert(u.take(t.len() as int) =~= t) by {
        assert forall|i: int| 0 <= i < t.len() implies u[i] == t[i] by {
            let p = update_prefix().len() as int;
            if i < p {
                assert(u[i] == update_prefix()[i]);
                assert(t[i] == update_prefix()[i]);
            } else if i < p + zone.len() {
                assert(u[i] == zone[i - p]);
                assert(t[i] == zone[i - p]);
            } else {
                assert(t[i] == topic_tail()[i - p - zone.len()]);
                assert(u[i] == temperature_label()[i - p - zone.len()]);
            }
        }
    };
}

} // verus!
