//! Instants: parsing ledger dates and payment date-times, and rendering instants.
use vstd::prelude::*;
use time::Error as TimeError;

verus! {

#[verifier::external_type_specification]
#[verifier::external_body]
pub struct ExTimeError(TimeError);

/// The seconds since the epoch that `gix_date::parse` (without a current time) reads
/// from `text`, or `None` where it rejects the text.
pub uninterp spec fn git_date_seconds(text: Seq<char>) -> Option<int>;

/// The seconds since the epoch of the date-time that the `time` crate reads from `text`
/// with the format description `format`, taken as UTC; `None` where it rejects either.
pub uninterp spec fn utc_seconds(text: Seq<char>, format: Seq<char>) -> Option<int>;

/// The text that `gix_date` renders for the UTC instant `seconds` in its ISO 8601 format.
pub uninterp spec fn iso8601_text(seconds: int) -> Seq<char>;

/// Relies on `gix_date::parse` with no current time: the instant's seconds since the
/// epoch, or the crate's error message.
#[verifier::external_body]
pub(crate) fn parse_git_date(text: &str) -> (r: Result<i64, String>)
    ensures
        r is Ok <==> git_date_seconds(text@) is Some,
        r matches Ok(s) ==> git_date_seconds(text@) == Some(s as int),
{
    gix_date::parse(text, None).map(|t| t.seconds).map_err(|e| e.to_string())
}

/// Relies on `time::format_description::parse_borrowed` (version 1) and
/// `time::PrimitiveDateTime::parse`: the parsed date-time taken as UTC, in seconds since
/// the epoch.
#[verifier::external_body]
pub(crate) fn parse_utc_date_time(text: &str, format: &str) -> (r: Result<i64, TimeError>)
    ensures
        r is Ok <==> utc_seconds(text@, format@) is Some,
        r matches Ok(s) ==> utc_seconds(text@, format@) == Some(s as int),
{
    let items = time::format_description::parse_borrowed::<1>(format)?;
    let t = time::PrimitiveDateTime::parse(text, &items)?;
    Ok(t.assume_utc().unix_timestamp())
}

/// Relies on `gix_date::Time::format_or_unix` with `gix_date::time::format::ISO8601`, for
/// a time without offset.
#[verifier::external_body]
pub(crate) fn format_iso8601(seconds: i64) -> (r: String)
    ensures
        r@ == iso8601_text(seconds as int),
{
    gix_date::Time::new(seconds, 0).format_or_unix(gix_date::time::format::ISO8601)
}

/// Relies on `std::str::from_utf8`: the text that `bytes` encode, if they are UTF-8.
#[verifier::external_body]
pub(crate) fn utf8_text(bytes: &[u8]) -> (r: Option<String>)
    ensures
        r is Some <==> vstd::utf8::valid_utf8(bytes@),
        r matches Some(s) ==> vstd::utf8::encode_utf8(s@) == bytes@,
{
    std::str::from_utf8(bytes).ok().map(|s| s.to_string())
}

/// The decimal digits of `n`, most significant first, with no leading zeros.
pub open spec fn decimal_text(n: nat) -> Seq<u8>
    decreases n,
{
    if n < 10 {
        seq![(0x30 + n) as u8]
    } else {
        decimal_text(n / 10).push((0x30 + n % 10) as u8)
    }
}

/// The decimal digits of `n`.
pub fn decimal_bytes(n: u64) -> (r: Vec<u8>)
    ensures
        r@ == decimal_text(n as nat),
    decreases n,
{
    if n < 10 {
        let mut v: Vec<u8> = Vec::new();
        v.push((0x30 + n) as u8);
        assert(v@ =~= decimal_text(n as nat));
        v
    } else {
        let mut v = decimal_bytes(n / 10);
        v.push((0x30 + n % 10) as u8);
        v
    }
}

} // verus!
