//! Credentials: what a signed token says of its holder, and how the seat and
//! the room are written into it and read back.

use crate::errors::InvalidToken;
use pasetors::claims::{Claims, ClaimsValidationRules};
use pasetors::errors::Error;
use pasetors::keys::AsymmetricKeyPair;
use pasetors::token::UntrustedToken;
use pasetors::version4::V4;
use pasetors::Public;
use uuid::Uuid;
use vstd::prelude::*;
use vstd::string::StrSliceExecFns;

verus! {

/// The name of a room.
pub type RoomId = u128;

/// The claim under which a token names its seat.
pub const SUBJECT_CLAIM: &'static str = "sub";

/// The claim under which a token names its room.
pub const ROOM_CLAIM: &'static str = "room_id";

/// A holder of a token that this registry signed.
#[derive(Debug)]
pub struct AuthenticatedPlayer {
    pub token: String,
    pub player_id: usize,
    pub room_id: RoomId,
}

#[verifier::external_type_specification]
#[verifier::external_body]
#[verifier::reject_recursive_types(V)]
pub struct ExAsymmetricKeyPair<V>(AsymmetricKeyPair<V>);

#[verifier::external_type_specification]
#[verifier::external_body]
pub struct ExV4(V4);

#[verifier::external_type_specification]
#[verifier::external_body]
pub struct ExTokenError(Error);

/// The text that stands for a room in a token.
pub uninterp spec fn room_text(room_id: RoomId) -> Seq<char>;

/// The room that a text stands for, if it stands for one.
pub uninterp spec fn room_of_text(text: Seq<char>) -> Option<RoomId>;

/// Whether `c` is one of the ten digits.
pub open spec fn is_digit(c: char) -> bool {
    '0' <= c <= '9'
}

/// The number that a digit stands for.
pub open spec fn digit_value(c: char) -> nat {
    (c as u32 - '0' as u32) as nat
}

/// The digit that stands for a number below ten.
pub open spec fn digit_of(n: nat) -> char {
    (n + '0' as u32) as char
}

/// Whether `text` is a decimal numeral: one digit or more and nothing else.
pub open spec fn is_numeral(text: Seq<char>) -> bool {
    text.len() > 0 && forall|i: int| 0 <= i < text.len() ==> is_digit(#[trigger] text[i])
}

/// The number that the digits of `text` write in base ten.
pub open spec fn numeral_value(text: Seq<char>) -> nat
    decreases text.len(),
{
    if text.len() == 0 {
        0
    } else {
        10 * numeral_value(text.drop_last()) + digit_value(text.last())
    }
}

/// The seat that `text` names: the number it writes, if it is a numeral and
/// the number is one a machine can count to.
pub open spec fn seat_of_text(text: Seq<char>) -> Option<usize> {
    if is_numeral(text) && numeral_value(text) <= usize::MAX {
        Some(numeral_value(text) as usize)
    } else {
        None
    }
}

/// The decimal numeral of `n`, without leading zeros.
pub open spec fn numeral_of(n: nat) -> Seq<char>
    decreases n,
{
    if n < 10 {
        seq![digit_of(n)]
    } else {
        numeral_of(n / 10).push(digit_of(n % 10))
    }
}

/// What a token says of its holder: the holder of `token` sits at the seat
/// that `subject` names in the room that `room` names. Nothing is said where
/// either is missing or names nothing.
pub open spec fn holder_of(token: Seq<char>, subject: Option<Seq<char>>, room: Option<Seq<char>>)
    -> Option<(Seq<char>, usize, RoomId)> {
    match (subject, room) {
        (Some(subject), Some(room)) => match (seat_of_text(subject), room_of_text(room)) {
            (Some(seat), Some(room_id)) => Some((token, seat, room_id)),
            _ => None,
        },
        _ => None,
    }
}

impl AuthenticatedPlayer {
    /// The token, the seat and the room of the holder.
    pub open spec fn parts(&self) -> (Seq<char>, usize, RoomId) {
        (self.token@, self.player_id, self.room_id)
    }
}

/// A room identifier that nobody can foresee, from `uuid::Uuid::new_v4`, as the
/// number that `Uuid::as_u128` gives for it. Nothing is claimed of it.
#[verifier::external_body]
pub(crate) fn fresh_room_id() -> (room_id: RoomId) {
    Uuid::new_v4().as_u128()
}

/// The text of a room identifier: the hyphenated lower-case form in which
/// `uuid::Uuid` displays the identifier that `Uuid::from_u128` makes of the
/// number.
#[verifier::external_body]
pub(crate) fn room_id_text(room_id: RoomId) -> (text: String)
    ensures
        text@ == room_text(room_id),
{
    Uuid::from_u128(room_id).to_string()
}

/// The room identifier that `text` stands for, if `uuid::Uuid::parse_str` reads
/// one from it, as the number that `Uuid::as_u128` gives for it.
#[verifier::external_body]
pub(crate) fn parse_room_id(text: &str) -> (room_id: Option<RoomId>)
    ensures
        room_id == room_of_text(text@),
{
    match Uuid::parse_str(text) {
        Ok(uuid) => Some(uuid.as_u128()),
        Err(_) => None,
    }
}

/// The decimal numeral of `seat`, as `u8::to_string` writes it.
#[verifier::external_body]
pub(crate) fn seat_text(seat: u8) -> (text: String)
    ensures
        text@ == numeral_of(seat as nat),
{
    seat.to_string()
}

/// A token over new claims with the subject `subject` and the further claim
/// `claim` of value `value`, signed with the secret key of `key_pair`. Calls
/// `pasetors::claims::Claims::new`, which stamps the claims with the time of
/// the call, `Claims::subject`, `Claims::add_additional` and
/// `pasetors::public::sign`. Nothing is claimed of the token.
#[verifier::external_body]
pub(crate) fn sign_claims(
    key_pair: &AsymmetricKeyPair<V4>,
    subject: &str,
    claim: &str,
    value: &str,
) -> (token: Result<String, Error>) {
    let mut claims = Claims::new()?;
    claims.subject(subject)?;
    claims.add_additional(claim, value)?;
    pasetors::public::sign(&key_pair.secret, &claims, None, None)
}

/// The claims `first` and `second` of `token`, each if the token has it as a
/// text, once `pasetors::public::verify` has found the token signed by the
/// key of `key_pair` and its claims valid at the time of the call. The token
/// is read by `UntrustedToken::try_from` and the claims by
/// `TrustedToken::payload_claims` and `Claims::get_claim`. Nothing is claimed
/// of the outcome.
#[verifier::external_body]
pub(crate) fn read_claims(
    key_pair: &AsymmetricKeyPair<V4>,
    token: &str,
    first: &str,
    second: &str,
) -> (claims: Result<(Option<String>, Option<String>), Error>) {
    let untrusted = UntrustedToken::<Public, V4>::try_from(token)?;
    let rules = ClaimsValidationRules::new();
    let trusted = pasetors::public::verify(&key_pair.public, &untrusted, &rules, None, None)?;
    let claims = trusted.payload_claims();
    let text = |name: &str|
        claims.and_then(|c| c.get_claim(name)).and_then(|v| v.as_str()).map(String::from);
    Ok((text(first), text(second)))
}

/// Reads a seat number: a decimal numeral that a machine can count to.
pub fn parse_seat(text: &str) -> (seat: Option<usize>)
    ensures
        seat == seat_of_text(text@),
{
    let len = text.unicode_len();
    if len == 0 {
        return None;
    }
    let mut value: usize = 0;
    let mut i: usize = 0;
    while i < len
        invariant
            i <= len,
            len == text@.len(),
            forall|k: int| 0 <= k < i ==> is_digit(#[trigger] text@[k]),
            value == numeral_value(text@.take(i as int)),
        decreases len - i,
    {
        let c = text.get_char(i);
        if c < '0' || c > '9' {
            return None;
        }
        let digit = (c as u32 - '0' as u32) as usize;
        proof {
            assert(text@.take(i + 1).drop_last() =~= text@.take(i as int));
            assert(text@.take(i + 1).last() == c);
            lemma_numeral_grows(text@, i + 1);
        }
        let shifted = match value.checked_mul(10) {
            Some(shifted) => shifted,
            None => {
                return None;
            },
        };
        value = match shifted.checked_add(digit) {
            Some(sum) => sum,
            None => {
                return None;
            },
        };
        i += 1;
    }
    assert(text@.take(i as int) =~= text@);
    Some(value)
}

/// The number written by the first digits of a text is no larger than the
/// number written by all of them.
proof fn lemma_numeral_grows(text: Seq<char>, n: int)
    requires
        0 <= n <= text.len(),
    ensures
        numeral_value(text.take(n)) <= numeral_value(text),
    decreases text.len() - n,
{
    if n < text.len() {
        assert(text.take(n + 1).drop_last() =~= text.take(n));
        lemma_numeral_grows(text, n + 1);
    } else {
        assert(text.take(n) =~= text);
    }
}

/// The holder that the claims of a verified token name. The token names a
/// holder if it has both claims and they name a seat and a room.
pub fn authenticated_player(token: &str, subject: Option<String>, room: Option<String>) -> (res:
    Result<AuthenticatedPlayer, InvalidToken>)
    ensures
        match holder_of(
            token@,
            match subject {
                Some(subject) => Some(subject@),
                None => None,
            },
            match room {
                Some(room) => Some(room@),
                None => None,
            },
        ) {
            Some(parts) => res is Ok && res.unwrap().parts() == parts,
            None => res is Err,
        },
{
    let (subject, room) = match (subject, room) {
        (Some(subject), Some(room)) => (subject, room),
        _ => {
            return Err(InvalidToken);
        },
    };
    let player_id = match parse_seat(subject.as_str()) {
        Some(seat) => seat,
        None => {
            return Err(InvalidToken);
        },
    };
    let room_id = match parse_room_id(room.as_str()) {
        Some(room_id) => room_id,
        None => {
            return Err(InvalidToken);
        },
    };
    Ok(AuthenticatedPlayer { token: token.to_owned(), player_id, room_id })
}

/// The numeral of a number is a numeral and writes that number.
pub proof fn lemma_numeral_of(n: nat)
    ensures
        is_numeral(numeral_of(n)),
        numeral_value(numeral_of(n)) == n,
    decreases n,
{
    if n < 10 {
        assert(numeral_of(n).drop_last() =~= Seq::<char>::empty());
        assert(numeral_value(numeral_of(n).drop_last()) == 0);
    } else {
        lemma_numeral_of(n / 10);
        assert(numeral_of(n).drop_last() =~= numeral_of(n / 10));
    }
}

/// The numeral under which a token names a seat names that seat again when
/// it is read back.
pub proof fn lemma_seat_round_trip(seat: u8)
    ensures
        seat_of_text(numeral_of(seat as nat)) == Some(seat as usize),
{
    lemma_numeral_of(seat as nat);
}

} // verus!
