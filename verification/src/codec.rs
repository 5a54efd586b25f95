//! Identifiers and points in time as text.

use crate::model::{Id, Moment};
use vstd::prelude::*;
use vstd::string::*;

verus! {

// --- identifiers ----------------------------------------------------------

/// The character of a hexadecimal digit, in lower case.
pub open spec fn hex_char(d: nat) -> char {
    if d % 16 < 10 {
        (('0' as nat) + d % 16) as char
    } else {
        (('a' as nat) + d % 16 - 10) as char
    }
}

/// The last `k` hexadecimal digits of a number.
pub open spec fn hex_digits(n: nat, k: nat) -> Seq<char>
    decreases k,
{
    if k == 0 {
        Seq::empty()
    } else {
        hex_digits(n / 16, (k - 1) as nat).push(hex_char(n % 16))
    }
}

/// The 32 hexadecimal digits of an identifier.
pub open spec fn simple_text(id: Id) -> Seq<char> {
    hex_digits(id as nat, 32)
}

/// The usual text of an identifier: groups of 8, 4, 4, 4 and 12 digits with hyphens between.
pub open spec fn uuid_text(id: Id) -> Seq<char> {
    let h = simple_text(id);
    h.subrange(0, 8) + "-"@ + h.subrange(8, 12) + "-"@ + h.subrange(12, 16) + "-"@ + h.subrange(
        16,
        20,
    ) + "-"@ + h.subrange(20, 32)
}

/// Whether `s` is the usual text of an identifier.
pub open spec fn is_uuid_text(s: Seq<char>) -> bool {
    exists|id: Id| #[trigger] uuid_text(id) == s
}

/// The identifier that a text other than the usual one writes: 32 digits without hyphens, digits
/// in upper case, in braces, or with the prefix of a URN.
pub uninterp spec fn other_uuid_in(s: Seq<char>) -> Option<Id>;

/// The identifier that a text writes.
pub open spec fn uuid_in(s: Seq<char>) -> Option<Id> {
    if is_uuid_text(s) {
        Some(choose|id: Id| #[trigger] uuid_text(id) == s)
    } else if s.len() != 32 && s.len() != 36 && s.len() != 38 && s.len() != 45 {
        None
    } else {
        other_uuid_in(s)
    }
}

/// `uuid::Uuid`'s `Display`: the digits of the 128 bits in lower case, with hyphens between the
/// groups.
#[verifier::external_body]
pub(crate) fn id_text(id: Id) -> (r: String)
    ensures
        r@ == uuid_text(id),
{
    uuid::Uuid::from_u128(id).to_string()
}

/// `uuid::Uuid::simple`: the digits of the 128 bits in lower case, without hyphens.
#[verifier::external_body]
pub(crate) fn id_simple_text(id: Id) -> (r: String)
    ensures
        r@ == simple_text(id),
{
    uuid::Uuid::from_u128(id).simple().to_string()
}

/// `uuid::Uuid::parse_str`: the usual text of an identifier gives that identifier; a text of a
/// length that no form has gives none; what any other text gives depends on the text alone.
#[verifier::external_body]
pub(crate) fn parse_uuid(s: &str) -> (r: Option<Id>)
    ensures
        r == (if is_uuid_text(s@) {
            Some(choose|id: Id| #[trigger] uuid_text(id) == s@)
        } else if s@.len() != 32 && s@.len() != 36 && s@.len() != 38 && s@.len() != 45 {
            None
        } else {
            other_uuid_in(s@)
        }),
{
    uuid::Uuid::parse_str(s).ok().map(|u| u.as_u128())
}

/// The identifier that a stored text writes; a text that writes none counts as zero.
pub open spec fn stored_id(s: Seq<char>) -> Id {
    match uuid_in(s) {
        Some(id) => id,
        None => 0,
    }
}

/// The identifier that a stored text writes.
pub fn parse_id(s: &str) -> (r: Id)
    ensures
        r == stored_id(s@),
{
    match parse_uuid(s) {
        Some(id) => id,
        None => 0,
    }
}

/// Whether an identifier is of the kind that chance makes: its version is 4, and its variant that
/// of RFC 9562.
pub open spec fn is_random(id: Id) -> bool {
    &&& (id / 0x1000_0000_0000_0000_0000) % 16 == 4
    &&& (id / 0x4000_0000_0000_0000) % 4 == 2
}

/// `uuid::Uuid::new_v4`: which of the random identifiers comes is left to chance.
#[verifier::external_body]
fn random_uuid() -> (r: Id)
    ensures
        is_random(r),
{
    uuid::Uuid::new_v4().as_u128()
}

/// A new identifier. It is not the one that a text stands for that writes none.
pub fn new_id() -> (r: Id)
    ensures
        is_random(r),
        r != 0,
{
    random_uuid()
}

/// There are as many digits as were asked for.
pub proof fn lemma_hex_len(n: nat, k: nat)
    ensures
        hex_digits(n, k).len() == k,
    decreases k,
{
    if k > 0 {
        lemma_hex_len(n / 16, (k - 1) as nat);
    }
}

/// Different digits have different characters.
proof fn lemma_hex_char_injective(a: nat, b: nat)
    requires
        a < 16,
        b < 16,
        hex_char(a) == hex_char(b),
    ensures
        a == b,
{
    let x = if a < 10 {
        ('0' as nat) + a
    } else {
        (('a' as nat) + a - 10) as nat
    };
    let y = if b < 10 {
        ('0' as nat) + b
    } else {
        (('a' as nat) + b - 10) as nat
    };
    assert(hex_char(a) as nat == x);
    assert(hex_char(b) as nat == y);
}

/// A power of sixteen.
pub open spec fn pow16(k: nat) -> nat
    decreases k,
{
    if k == 0 {
        1
    } else {
        16 * pow16((k - 1) as nat)
    }
}

/// A number below the `k`-th power of sixteen is given by its last `k` digits.
proof fn lemma_hex_injective(a: nat, b: nat, k: nat)
    requires
        a < pow16(k),
        b < pow16(k),
        hex_digits(a, k) == hex_digits(b, k),
    ensures
        a == b,
    decreases k,
{
    if k > 0 {
        let x = hex_digits(a / 16, (k - 1) as nat);
        let y = hex_digits(b / 16, (k - 1) as nat);
        lemma_hex_len(a / 16, (k - 1) as nat);
        lemma_hex_len(b / 16, (k - 1) as nat);
        assert(hex_digits(a, k).last() == hex_char(a % 16));
        assert(hex_digits(b, k).last() == hex_char(b % 16));
        assert(hex_digits(a, k).drop_last() =~= x);
        assert(hex_digits(b, k).drop_last() =~= y);
        lemma_hex_char_injective(a % 16, b % 16);
        lemma_hex_injective(a / 16, b / 16, (k - 1) as nat);
    }
}

/// Every identifier has 32 digits.
proof fn lemma_id_fits(id: Id)
    ensures
        (id as nat) < pow16(32),
{
    reveal_with_fuel(pow16, 33);
    assert(pow16(32) == 0x1_0000_0000_0000_0000_0000_0000_0000_0000int);
}

/// Different identifiers have different texts.
pub proof fn law_texts_identify(a: Id, b: Id)
    requires
        uuid_text(a) == uuid_text(b),
    ensures
        a == b,
{
    let x = simple_text(a);
    let y = simple_text(b);
    lemma_hex_len(a as nat, 32);
    lemma_hex_len(b as nat, 32);
    reveal_strlit("-");
    let s = uuid_text(a);
    let t = uuid_text(b);
    assert(x =~= s.subrange(0, 8) + s.subrange(9, 13) + s.subrange(14, 18) + s.subrange(19, 23)
        + s.subrange(24, 36));
    assert(y =~= t.subrange(0, 8) + t.subrange(9, 13) + t.subrange(14, 18) + t.subrange(19, 23)
        + t.subrange(24, 36));
    lemma_id_fits(a);
    lemma_id_fits(b);
    lemma_hex_injective(a as nat, b as nat, 32);
}

/// What is read of an identifier's text is that identifier.
pub proof fn law_an_id_reads_back(id: Id)
    ensures
        uuid_in(uuid_text(id)) == Some(id),
        stored_id(uuid_text(id)) == id,
{
    let s = uuid_text(id);
    assert(is_uuid_text(s));
    let other = choose|other: Id| #[trigger] uuid_text(other) == s;
    law_texts_identify(other, id);
}

/// The text of an identifier has 36 characters; the last twelve hold no hyphen, and a hyphen
/// stands before them.
pub proof fn lemma_uuid_text_shape(id: Id)
    ensures
        uuid_text(id).len() == 36,
        uuid_text(id)[23] == '-',
        forall|i: int| 24 <= i < 36 ==> #[trigger] uuid_text(id)[i] != '-',
        uuid_text(id)[0] != '-',
{
    lemma_hex_len(id as nat, 32);
    reveal_strlit("-");
    let h = simple_text(id);
    assert forall|i: int| 24 <= i < 36 implies #[trigger] uuid_text(id)[i] != '-' by {
        assert(uuid_text(id)[i] == h[i - 4]);
        lemma_digit_is_plain(id as nat, 32, i - 4);
    }
    assert(uuid_text(id)[0] == h[0]);
    lemma_digit_is_plain(id as nat, 32, 0);
}

/// A hexadecimal digit is a digit or one of the first six letters.
pub proof fn lemma_digit_is_plain(n: nat, k: nat, i: int)
    requires
        0 <= i < k,
    ensures
        '0' <= hex_digits(n, k)[i] <= '9' || 'a' <= hex_digits(n, k)[i] <= 'f',
    decreases k,
{
    lemma_hex_len(n / 16, (k - 1) as nat);
    if i < k - 1 {
        lemma_digit_is_plain(n / 16, (k - 1) as nat, i);
    } else {
        let d = n % 16;
        if d < 10 {
            assert(hex_char(d) as nat == ('0' as nat) + d);
        } else {
            assert(hex_char(d) as nat == ('a' as nat) + d - 10);
        }
    }
}

// --- points in time -------------------------------------------------------

/// The nanoseconds of a second.
pub const SECOND: i128 = 1_000_000_000;

/// The first second that a point in time can be in: that of the year -262143.
pub const FIRST_SECOND: i64 = -8_334_601_228_800;

/// The last second that a point in time can be in: that of the year 262142.
pub const LAST_SECOND: i64 = 8_210_266_876_799;

/// The first second of the year 0.
pub const FIRST_WRITTEN: i64 = -62_167_219_200;

/// The last second of the year 9999.
pub const LAST_WRITTEN: i64 = 253_402_300_799;

/// The point in time that many seconds and nanoseconds from the epoch.
pub open spec fn moment_of(secs: int, nanos: int) -> int {
    secs * SECOND + nanos
}

/// Whether a number of nanoseconds is a point in time: it lies in the years -262143 to 262142.
pub open spec fn is_held(t: Moment) -> bool {
    moment_of(FIRST_SECOND as int, 0) <= t < moment_of(LAST_SECOND + 1, 0)
}

/// Whether a point in time lies in the years 0 to 9999, which RFC 3339 can write.
pub open spec fn is_written(t: Moment) -> bool {
    moment_of(FIRST_WRITTEN as int, 0) <= t < moment_of(LAST_WRITTEN + 1, 0)
}

/// The text in the form of RFC 3339 of the point in time that many seconds and nanoseconds from
/// the epoch.
pub uninterp spec fn instant_text_of(secs: i64, nanos: u32) -> Seq<char>;

/// The seconds and nanoseconds from the epoch to the point in time that a text in the form of
/// RFC 3339 writes.
pub uninterp spec fn instant_in(s: Seq<char>) -> Option<(i64, u32)>;

/// A point in time in the form of RFC 3339.
pub open spec fn rfc3339_of(t: Moment) -> Seq<char> {
    instant_text_of((t as int / SECOND as int) as i64, (t as int % SECOND as int) as u32)
}

/// The point in time that a text in the form of RFC 3339 writes.
pub open spec fn moment_in(s: Seq<char>) -> Option<Moment> {
    match instant_in(s) {
        Some((secs, nanos)) => Some(moment_of(secs as int, nanos as int) as i128),
        None => None,
    }
}

/// `chrono`'s `DateTime::<Utc>::to_rfc3339` of the point in time that `from_timestamp` makes: it
/// depends on the two numbers alone, and in the years 0 to 9999 `parse_instant` reads it back.
#[verifier::external_body]
fn instant_text(secs: i64, nanos: u32) -> (r: String)
    requires
        FIRST_SECOND <= secs <= LAST_SECOND,
        nanos < 1_000_000_000,
    ensures
        r@ == instant_text_of(secs, nanos),
        FIRST_WRITTEN <= secs <= LAST_WRITTEN ==> instant_in(r@) == Some((secs, nanos)),
{
    chrono::DateTime::from_timestamp(secs, nanos).unwrap().to_rfc3339()
}

/// `chrono`'s `DateTime::parse_from_rfc3339`, as the seconds and nanoseconds from the epoch: none
/// where the text has another form. In a leap second the nanoseconds go on beyond those of the
/// second before it.
#[verifier::external_body]
fn parse_instant(s: &str) -> (r: Option<(i64, u32)>)
    ensures
        r == instant_in(s@),
{
    let read = chrono::DateTime::parse_from_rfc3339(s);
    read.ok().map(|t| (t.timestamp(), t.timestamp_subsec_nanos()))
}

/// `chrono::Utc::now`, as the seconds and nanoseconds from the epoch: the seconds are neither
/// negative nor beyond the last that a point in time can be in. With the clock of the operating
/// system set to any other time the call does not return. Which time it is, is left unsaid.
#[verifier::external_body]
fn clock() -> (r: (i64, u32))
    ensures
        0 <= r.0 <= LAST_SECOND,
        r.1 < 1_000_000_000,
{
    let shown = chrono::Utc::now();
    (shown.timestamp(), shown.timestamp_subsec_nanos())
}

/// The point in time that many seconds and nanoseconds from the epoch.
pub fn moment_at(secs: i64, nanos: u32) -> (r: Moment)
    ensures
        r == moment_of(secs as int, nanos as int),
{
    secs as i128 * SECOND + nanos as i128
}

/// Whether a number of nanoseconds is a point in time.
pub fn can_hold(t: Moment) -> (r: bool)
    ensures
        r == is_held(t),
{
    t >= FIRST_SECOND as i128 * SECOND && t < (LAST_SECOND as i128 + 1) * SECOND
}

/// The text of a point in time. In the years 0 to 9999 it is read back.
pub fn moment_text(t: Moment) -> (r: String)
    requires
        is_held(t),
    ensures
        r@ == rfc3339_of(t),
        is_written(t) ==> moment_in(r@) == Some(t),
{
    let since: u128 = (t - FIRST_SECOND as i128 * SECOND) as u128;
    let secs: i64 = FIRST_SECOND + (since / 1_000_000_000) as i64;
    let nanos: u32 = (since % 1_000_000_000) as u32;
    assert(secs == t as int / SECOND as int && nanos == t as int % SECOND as int);
    instant_text(secs, nanos)
}

/// The point in time that a text writes.
pub fn parse_moment(s: &str) -> (r: Option<Moment>)
    ensures
        r == moment_in(s@),
{
    match parse_instant(s) {
        Some((secs, nanos)) => Some(moment_at(secs, nanos)),
        None => None,
    }
}

/// The present point in time. It is never before the epoch.
pub fn now() -> (r: Moment)
    ensures
        r >= 0,
        is_held(r),
{
    let (secs, nanos) = clock();
    moment_at(secs, nanos)
}

/// The point in time that a stored text writes; a text that writes none counts as `now`.
pub open spec fn stored_moment(s: Seq<char>, now: Moment) -> Moment {
    match moment_in(s) {
        Some(t) => t,
        None => now,
    }
}

/// The point in time that a stored text writes.
pub fn parse_dt(s: &str, now: Moment) -> (r: Moment)
    ensures
        r == stored_moment(s@, now),
{
    match parse_moment(s) {
        Some(t) => t,
        None => now,
    }
}

/// What does not read as an identifier is stored as none, and what does not read as a point in
/// time as the present.
pub proof fn law_what_does_not_read_is_replaced(s: Seq<char>, now: Moment)
    ensures
        uuid_in(s) is None ==> stored_id(s) == 0,
        uuid_in(s) matches Some(id) ==> stored_id(s) == id,
        moment_in(s) is None ==> stored_moment(s, now) == now,
        moment_in(s) matches Some(t) ==> stored_moment(s, now) == t,
{
}

} // verus!
