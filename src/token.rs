use crate::error::TokenError;
use hmac::{Hmac, Mac};
use sha2::Sha256;
use vstd::bytes::{
    lemma_auto_spec_u64_to_from_le_bytes, spec_u64_from_le_bytes, spec_u64_to_le_bytes,
    u64_from_le_bytes, u64_to_le_bytes,
};
use vstd::prelude::*;
use vstd::slice::slice_to_vec;
use vstd::string::*;
use vstd::utf8::*;

verus! {

/// Byte value of the separator that terminates each field of a token.
pub const FIELD_END: u8 = 46;

/// The lowercase hexadecimal digit for a nibble.
pub open spec fn hex_digit(n: u8) -> u8 {
    if n < 10 {
        (48 + n) as u8
    } else {
        (87 + n) as u8
    }
}

/// Whether a byte is a lowercase hexadecimal digit.
pub open spec fn is_hex_digit(c: u8) -> bool {
    (48 <= c && c <= 57) || (97 <= c && c <= 102)
}

/// The nibble that a lowercase hexadecimal digit stands for.
pub open spec fn digit_value(c: u8) -> u8 {
    if c <= 57 {
        (c - 48) as u8
    } else {
        (c - 87) as u8
    }
}

/// Lowercase hexadecimal text of a byte string, two digits per byte, high nibble first.
pub open spec fn hex_of(b: Seq<u8>) -> Seq<u8> {
    Seq::new(
        2 * b.len(),
        |i: int|
            if i % 2 == 0 {
                hex_digit(b[i / 2] / 16)
            } else {
                hex_digit(b[i / 2] % 16)
            },
    )
}

/// The bytes that a lowercase hexadecimal text stands for, if it is one.
pub open spec fn unhex(s: Seq<u8>) -> Option<Seq<u8>> {
    if s.len() % 2 == 0 && forall|i: int| 0 <= i < s.len() ==> is_hex_digit(#[trigger] s[i]) {
        Some(
            Seq::new(
                s.len() / 2,
                |i: int| (digit_value(s[2 * i]) * 16 + digit_value(s[2 * i + 1])) as u8,
            ),
        )
    } else {
        None
    }
}

fn nibble_digit(n: u8) -> (c: u8)
    requires
        n < 16,
    ensures
        c == hex_digit(n),
{
    if n < 10 {
        48 + n
    } else {
        87 + n
    }
}

/// Appends the hexadecimal text of `b` to `out`.
pub fn push_hex(out: &mut Vec<u8>, b: &[u8])
    ensures
        final(out)@ == old(out)@ + hex_of(b@),
{
    let ghost start = out@;
    let mut i: usize = 0;
    while i < b.len()
        invariant
            i <= b@.len(),
            out@ == start + hex_of(b@.subrange(0, i as int)),
        decreases b@.len() - i,
    {
        let x = b[i];
        out.push(nibble_digit(x / 16));
        out.push(nibble_digit(x % 16));
        i = i + 1;
        assert(hex_of(b@.subrange(0, i as int)) =~= hex_of(b@.subrange(0, i - 1)) + seq![
            hex_digit(x / 16),
            hex_digit(x % 16),
        ]);
    }
    assert(b@.subrange(0, i as int) =~= b@);
}

fn digit_of(c: u8) -> (r: Option<u8>)
    ensures
        r is Some <==> is_hex_digit(c),
        r matches Some(v) ==> v == digit_value(c) && v < 16,
{
    if 48 <= c && c <= 57 {
        Some(c - 48)
    } else if 97 <= c && c <= 102 {
        Some(c - 87)
    } else {
        None
    }
}

/// Reads a lowercase hexadecimal text back into bytes.
pub fn decode_hex(s: &[u8]) -> (r: Option<Vec<u8>>)
    ensures
        match r {
            Some(v) => unhex(s@) == Some(v@),
            None => unhex(s@) is None,
        },
{
    if s.len() % 2 != 0 {
        return None;
    }
    let mut out: Vec<u8> = Vec::new();
    let mut i: usize = 0;
    while i < s.len() / 2
        invariant
            s@.len() % 2 == 0,
            i <= s@.len() / 2,
            out@.len() == i,
            forall|j: int| 0 <= j < 2 * i ==> is_hex_digit(#[trigger] s@[j]),
            forall|j: int|
                0 <= j < i ==> #[trigger] out@[j] == (digit_value(s@[2 * j]) * 16 + digit_value(
                    s@[2 * j + 1],
                )) as u8,
        decreases s@.len() / 2 - i,
    {
        let hi = digit_of(s[2 * i]);
        let lo = digit_of(s[2 * i + 1]);
        match (hi, lo) {
            (Some(h), Some(l)) => {
                out.push(h * 16 + l);
            },
            _ => {
                return None;
            },
        }
        i = i + 1;
    }
    assert(out@ =~= unhex(s@)->Some_0);
    Some(out)
}

/// Hexadecimal text read back gives the bytes it was made from; it holds no separator.
pub proof fn lemma_hex_round_trip(b: Seq<u8>)
    ensures
        unhex(hex_of(b)) == Some(b),
        forall|i: int| 0 <= i < hex_of(b).len() ==> #[trigger] hex_of(b)[i] != FIELD_END,
{
    let h = hex_of(b);
    assert forall|i: int| 0 <= i < h.len() implies is_hex_digit(#[trigger] h[i]) && h[i]
        != FIELD_END by {
        let x = b[i / 2];
        assert(x / 16 < 16 && x % 16 < 16);
    }
    assert forall|i: int| 0 <= i < b.len() implies (digit_value(h[2 * i]) * 16 + digit_value(
        h[2 * i + 1],
    )) as u8 == #[trigger] b[i] by {
        let x = b[i];
        assert((2 * i) / 2 == i && (2 * i) % 2 == 0);
        assert((2 * i + 1) / 2 == i && (2 * i + 1) % 2 == 1);
        assert(digit_value(hex_digit(x / 16)) == x / 16);
        assert(digit_value(hex_digit(x % 16)) == x % 16);
    }
    assert(unhex(h)->Some_0 =~= b);
}


/// The text of a list of fields: each field's hexadecimal text followed by the separator.
pub open spec fn frame(fields: Seq<Seq<u8>>) -> Seq<u8>
    decreases fields.len(),
{
    if fields.len() == 0 {
        Seq::empty()
    } else {
        frame(fields.drop_last()) + hex_of(fields.last()) + seq![FIELD_END]
    }
}

/// The pieces of a byte string between occurrences of `sep`; there is always one more piece
/// than there are separators.
pub open spec fn split_on(b: Seq<u8>, sep: u8) -> Seq<Seq<u8>>
    decreases b.len(),
{
    if b.len() == 0 {
        seq![Seq::empty()]
    } else {
        let init = split_on(b.drop_last(), sep);
        if b.last() == sep {
            init.push(Seq::empty())
        } else {
            init.update(init.len() - 1, init.last().push(b.last()))
        }
    }
}

/// Whether a byte string holds no field separator.
pub open spec fn has_no_separator(s: Seq<u8>) -> bool {
    forall|i: int| 0 <= i < s.len() ==> #[trigger] s[i] != FIELD_END
}

pub(crate) proof fn lemma_split_nonempty(b: Seq<u8>, sep: u8)
    ensures
        split_on(b, sep).len() >= 1,
    decreases b.len(),
{
    if b.len() > 0 {
        lemma_split_nonempty(b.drop_last(), sep);
    }
}

/// Appending text without a separator extends the last piece.
proof fn lemma_split_extend(p: Seq<u8>, s: Seq<u8>)
    requires
        has_no_separator(s),
    ensures
        split_on(p + s, FIELD_END) == split_on(p, FIELD_END).update(
            split_on(p, FIELD_END).len() - 1,
            split_on(p, FIELD_END).last() + s,
        ),
    decreases s.len(),
{
    lemma_split_nonempty(p, FIELD_END);
    let q = split_on(p, FIELD_END);
    if s.len() == 0 {
        assert(p + s =~= p);
        assert(q.last() + s =~= q.last());
        assert(q.update(q.len() - 1, q.last()) =~= q);
    } else {
        let s0 = s.drop_last();
        let c = s[s.len() - 1];
        assert(c != FIELD_END);
        assert(has_no_separator(s0)) by {
            assert forall|i: int| 0 <= i < s0.len() implies #[trigger] s0[i] != FIELD_END by {
                assert(s0[i] == s[i]);
            }
        }
        lemma_split_extend(p, s0);
        let init = split_on(p + s0, FIELD_END);
        assert(init == q.update(q.len() - 1, q.last() + s0));
        assert((p + s).drop_last() =~= p + s0);
        assert((p + s).last() == c);
        assert(split_on(p + s, FIELD_END) == init.update(init.len() - 1, init.last().push(c)));
        assert(init.len() == q.len());
        assert(init.last() == q.last() + s0);
        assert((q.last() + s0).push(c) =~= q.last() + s);
        assert(split_on(p + s, FIELD_END) =~= q.update(q.len() - 1, q.last() + s));
    }
}

/// The hexadecimal text of each of a list of fields.
pub open spec fn hex_texts(fields: Seq<Seq<u8>>) -> Seq<Seq<u8>> {
    fields.map_values(|f: Seq<u8>| hex_of(f))
}

/// Appending a separator opens a new, empty piece.
proof fn lemma_split_separator(p: Seq<u8>)
    ensures
        split_on(p + seq![FIELD_END], FIELD_END) == split_on(p, FIELD_END).push(Seq::empty()),
{
    let b = p + seq![FIELD_END];
    assert(b.drop_last() =~= p);
    assert(b.last() == FIELD_END);
}

/// Splitting the text of a list of fields, followed by text without a separator, gives back
/// the fields' texts and that text.
pub proof fn lemma_split_frame(fields: Seq<Seq<u8>>, s: Seq<u8>)
    requires
        has_no_separator(s),
    ensures
        split_on(frame(fields) + s, FIELD_END) == hex_texts(fields).push(s),
    decreases fields.len(),
{
    if fields.len() == 0 {
        lemma_split_extend(Seq::empty(), s);
        assert(Seq::<u8>::empty() + s =~= s);
        assert(frame(fields) + s =~= s);
        assert(split_on(Seq::<u8>::empty(), FIELD_END) == seq![Seq::<u8>::empty()]);
        assert(split_on(s, FIELD_END) =~= seq![s]);
        assert(hex_texts(fields).push(s) =~= seq![s]);
    } else {
        let init = fields.drop_last();
        let h = hex_of(fields.last());
        lemma_hex_round_trip(fields.last());
        assert(has_no_separator(h));
        lemma_split_frame(init, h);
        let q = frame(init) + h + seq![FIELD_END];
        assert(q == frame(fields));
        lemma_split_separator(frame(init) + h);
        let sq = split_on(q, FIELD_END);
        assert(sq == hex_texts(init).push(h).push(Seq::empty()));
        lemma_split_extend(q, s);
        assert(Seq::<u8>::empty() + s =~= s);
        assert(split_on(q + s, FIELD_END) =~= hex_texts(init).push(h).push(s));
        assert(hex_texts(init).push(h) =~= hex_texts(fields));
    }
}

/// The contents of a list of byte vectors.
pub open spec fn views(v: Seq<Vec<u8>>) -> Seq<Seq<u8>> {
    v.map_values(|f: Vec<u8>| f@)
}

/// Splits a byte string into the pieces between occurrences of `sep`.
pub fn split_pieces(b: &[u8], sep: u8) -> (r: Vec<Vec<u8>>)
    ensures
        views(r@) == split_on(b@, sep),
{
    let mut done: Vec<Vec<u8>> = Vec::new();
    let mut cur: Vec<u8> = Vec::new();
    let mut i: usize = 0;
    assert(views(done@).push(cur@) =~= split_on(b@.subrange(0, 0), sep));
    while i < b.len()
        invariant
            i <= b@.len(),
            views(done@).push(cur@) == split_on(b@.subrange(0, i as int), sep),
        decreases b@.len() - i,
    {
        let ghost before = b@.subrange(0, i as int);
        let ghost d0 = done@;
        let ghost c0 = cur@;
        let x = b[i];
        proof {
            lemma_split_nonempty(before, sep);
            assert(b@.subrange(0, i + 1).drop_last() =~= before);
            assert(b@.subrange(0, i + 1).last() == x);
        }
        if x == sep {
            done.push(cur);
            cur = Vec::new();
            assert(views(done@) =~= views(d0).push(c0));
        } else {
            cur.push(x);
            assert(views(done@).push(cur@) =~= views(d0).push(c0).update(
                views(d0).push(c0).len() - 1,
                c0.push(x),
            ));
        }
        i = i + 1;
        assert(views(done@).push(cur@) =~= split_on(b@.subrange(0, i as int), sep));
    }
    assert(b@.subrange(0, i as int) =~= b@);
    let ghost d1 = done@;
    done.push(cur);
    assert(views(done@) =~= views(d1).push(cur@));
    done
}

/// Writes the text of a list of fields.
pub fn encode_frame(fields: &Vec<Vec<u8>>) -> (r: Vec<u8>)
    ensures
        r@ == frame(views(fields@)),
{
    let mut out: Vec<u8> = Vec::new();
    let mut i: usize = 0;
    while i < fields.len()
        invariant
            i <= fields@.len(),
            out@ == frame(views(fields@).subrange(0, i as int)),
        decreases fields@.len() - i,
    {
        push_hex(&mut out, fields[i].as_slice());
        out.push(FIELD_END);
        i = i + 1;
        assert(views(fields@).subrange(0, i as int).drop_last() =~= views(fields@).subrange(
            0,
            i - 1,
        ));
    }
    assert(views(fields@).subrange(0, i as int) =~= views(fields@));
    out
}


/// HMAC-SHA256 of a message under a key.
pub uninterp spec fn hmac_sha256_of(key: Seq<u8>, msg: Seq<u8>) -> Seq<u8>;

/// Relies on `hmac::Hmac<sha2::Sha256>`: the 32-byte authentication code of `msg` under
/// `key`. The key may have any length, so `new_from_slice` does not fail.
#[verifier::external_body]
fn hmac_sha256(key: &[u8], msg: &[u8]) -> (r: Vec<u8>)
    ensures
        r@ == hmac_sha256_of(key@, msg@),
        r@.len() == 32,
{
    let mut mac = <Hmac<Sha256> as Mac>::new_from_slice(key).expect("HMAC takes keys of any length");
    mac.update(msg);
    mac.finalize().into_bytes().to_vec()
}

/// Relies on `String::from_utf8`: it succeeds exactly on the UTF-8 encodings of text, and
/// the string it returns has those bytes.
#[verifier::external_body]
pub(crate) fn utf8_to_string(bytes: Vec<u8>) -> (r: Option<String>)
    ensures
        r is Some <==> exists|t: Seq<char>| encode_utf8(t) == bytes@,
        r matches Some(s) ==> encode_utf8(s@) == bytes@,
{
    String::from_utf8(bytes).ok()
}

/// The text whose UTF-8 encoding a byte string is, if there is one.
pub open spec fn utf8_text(b: Seq<u8>) -> Option<Seq<char>> {
    if exists|t: Seq<char>| encode_utf8(t) == b {
        Some(choose|t: Seq<char>| encode_utf8(t) == b)
    } else {
        None
    }
}

proof fn lemma_utf8_text(t: Seq<char>)
    ensures
        utf8_text(encode_utf8(t)) == Some(t),
{
    broadcast use encode_utf8_decode_utf8;

    let b = encode_utf8(t);
    assert(exists|u: Seq<char>| encode_utf8(u) == b);
    let u = choose|u: Seq<char>| encode_utf8(u) == b;
    assert(decode_utf8(encode_utf8(u)) == u);
    assert(decode_utf8(encode_utf8(t)) == t);
}

/// The identity and permission snapshot that a credential carries.
pub struct Claims {
    pub subject_id: i64,
    pub subject_name: String,
    pub permissions: Vec<String>,
    /// Seconds since the epoch at which the credential was issued.
    pub issued_at: u64,
    /// Seconds since the epoch after which the credential is no longer accepted.
    pub expires_at: u64,
}

/// What a set of claims holds, as mathematical values.
pub ghost struct ClaimsView {
    pub subject_id: i64,
    pub subject_name: Seq<char>,
    pub permissions: Seq<Seq<char>>,
    pub issued_at: u64,
    pub expires_at: u64,
}

/// The text of each of a list of strings.
pub open spec fn texts(v: Seq<String>) -> Seq<Seq<char>> {
    v.map_values(|s: String| s@)
}

impl View for Claims {
    type V = ClaimsView;

    open spec fn view(&self) -> ClaimsView {
        ClaimsView {
            subject_id: self.subject_id,
            subject_name: self.subject_name@,
            permissions: texts(self.permissions@),
            issued_at: self.issued_at,
            expires_at: self.expires_at,
        }
    }
}

/// The fields a credential is made of: subject id, issue time and expiry as eight
/// little-endian bytes each, then the subject name and each permission in UTF-8.
pub open spec fn claim_fields(c: ClaimsView) -> Seq<Seq<u8>> {
    seq![
        spec_u64_to_le_bytes(#[verifier::truncate] (c.subject_id as u64)),
        spec_u64_to_le_bytes(c.issued_at),
        spec_u64_to_le_bytes(c.expires_at),
        encode_utf8(c.subject_name),
    ] + encoded_texts(c.permissions)
}

/// The text that each of a list of UTF-8 byte strings encodes.
pub open spec fn decoded_texts(s: Seq<Seq<u8>>) -> Seq<Seq<char>> {
    s.map_values(|x: Seq<u8>| utf8_text(x)->Some_0)
}

/// The UTF-8 encoding of each of a list of texts.
pub open spec fn encoded_texts(s: Seq<Seq<char>>) -> Seq<Seq<u8>> {
    s.map_values(|p: Seq<char>| encode_utf8(p))
}

/// The claims that a list of fields stands for, if it stands for any.
pub open spec fn claims_of_fields(f: Seq<Seq<u8>>) -> Option<ClaimsView> {
    if f.len() >= 4 && f[0].len() == 8 && f[1].len() == 8 && f[2].len() == 8 && forall|i: int|
        3 <= i < f.len() ==> (#[trigger] utf8_text(f[i])) is Some {
        Some(
            ClaimsView {
                subject_id: #[verifier::truncate] (spec_u64_from_le_bytes(f[0]) as i64),
                subject_name: utf8_text(f[3])->Some_0,
                permissions: decoded_texts(f.subrange(4, f.len() as int)),
                issued_at: spec_u64_from_le_bytes(f[1]),
                expires_at: spec_u64_from_le_bytes(f[2]),
            },
        )
    } else {
        None
    }
}

/// The bytes that each of a list of hexadecimal texts stands for.
pub open spec fn unhex_all(s: Seq<Seq<u8>>) -> Seq<Seq<u8>> {
    s.map_values(|x: Seq<u8>| unhex(x)->Some_0)
}

/// The signed fields and the signature that a token's bytes hold, if they parse.
pub open spec fn parse_token(b: Seq<u8>) -> Option<(Seq<Seq<u8>>, Seq<u8>)> {
    let pieces = split_on(b, FIELD_END);
    if forall|i: int| 0 <= i < pieces.len() ==> (#[trigger] unhex(pieces[i])) is Some {
        Some(
            (
                unhex_all(pieces.drop_last()),
                unhex(pieces.last())->Some_0,
            ),
        )
    } else {
        None
    }
}

/// The bytes of the token issued for `c` under `key`: the framed fields, then the
/// hexadecimal signature over them.
pub open spec fn token_bytes(c: ClaimsView, key: Seq<u8>) -> Seq<u8> {
    frame(claim_fields(c)) + hex_of(hmac_sha256_of(key, frame(claim_fields(c))))
}

/// What verifying the token bytes `b` under `key` at time `now` gives.
pub open spec fn verify_outcome(key: Seq<u8>, b: Seq<u8>, now: u64) -> Result<
    ClaimsView,
    TokenError,
> {
    match parse_token(b) {
        None => Err(TokenError::Malformed),
        Some((fields, sig)) => match claims_of_fields(fields) {
            None => Err(TokenError::Malformed),
            Some(c) => if sig != hmac_sha256_of(key, frame(fields)) {
                Err(TokenError::SignatureInvalid)
            } else if now > c.expires_at {
                Err(TokenError::Expired)
            } else {
                Ok(c)
            },
        },
    }
}


proof fn lemma_claims_round_trip(c: ClaimsView)
    ensures
        claims_of_fields(claim_fields(c)) == Some(c),
{
    lemma_auto_spec_u64_to_from_le_bytes();
    let f = claim_fields(c);
    let enc = encoded_texts(c.permissions);
    assert(f[0] == spec_u64_to_le_bytes(#[verifier::truncate] (c.subject_id as u64)));
    assert(f[1] == spec_u64_to_le_bytes(c.issued_at));
    assert(f[2] == spec_u64_to_le_bytes(c.expires_at));
    assert(f[3] == encode_utf8(c.subject_name));
    lemma_utf8_text(c.subject_name);
    assert forall|i: int| 3 <= i < f.len() implies (#[trigger] utf8_text(f[i])) is Some by {
        if i > 3 {
            assert(f[i] == encode_utf8(c.permissions[i - 4]));
            lemma_utf8_text(c.permissions[i - 4]);
        }
    }
    assert(f.subrange(4, f.len() as int) =~= enc);
    assert forall|i: int| 0 <= i < c.permissions.len() implies #[trigger] decoded_texts(enc)[i] == c.permissions[i] by {
        lemma_utf8_text(c.permissions[i]);
    }
    assert(decoded_texts(enc) =~= c.permissions);
    let id = c.subject_id;
    assert(#[verifier::truncate] ((#[verifier::truncate] (id as u64)) as i64) == id) by (bit_vector);
}

proof fn lemma_parse_round_trip(fields: Seq<Seq<u8>>, sig: Seq<u8>)
    ensures
        parse_token(frame(fields) + hex_of(sig)) == Some((fields, sig)),
{
    lemma_hex_round_trip(sig);
    lemma_split_frame(fields, hex_of(sig));
    let pieces = split_on(frame(fields) + hex_of(sig), FIELD_END);
    assert(pieces == hex_texts(fields).push(hex_of(sig)));
    assert forall|i: int| 0 <= i < pieces.len() implies (#[trigger] unhex(pieces[i])) is Some by {
        if i < fields.len() {
            lemma_hex_round_trip(fields[i]);
        }
    }
    assert(pieces.drop_last() =~= hex_texts(fields));
    assert forall|i: int| 0 <= i < fields.len() implies #[trigger] unhex_all(hex_texts(fields))[i] == fields[i] by {
        lemma_hex_round_trip(fields[i]);
    }
    assert(unhex_all(hex_texts(fields)) =~= fields);
}

/// A token verifies, under the secret that signed it and before its expiry, to exactly the
/// claims it was issued for.
pub proof fn lemma_verify_after_create(c: ClaimsView, key: Seq<u8>, now: u64)
    requires
        now <= c.expires_at,
    ensures
        verify_outcome(key, token_bytes(c, key), now) == Ok::<ClaimsView, TokenError>(c),
{
    let p = frame(claim_fields(c));
    lemma_parse_round_trip(claim_fields(c), hmac_sha256_of(key, p));
    lemma_claims_round_trip(c);
}

/// A token presented after its expiry is refused as expired, under the secret that signed it.
pub proof fn lemma_expired_token(c: ClaimsView, key: Seq<u8>, now: u64)
    requires
        now > c.expires_at,
    ensures
        verify_outcome(key, token_bytes(c, key), now) == Err::<ClaimsView, TokenError>(
            TokenError::Expired,
        ),
{
    let p = frame(claim_fields(c));
    lemma_parse_round_trip(claim_fields(c), hmac_sha256_of(key, p));
    lemma_claims_round_trip(c);
}

/// A token signed under one secret is refused, under any secret whose code for the same
/// fields differs, as carrying an invalid signature, whatever the time.
pub proof fn lemma_foreign_secret(c: ClaimsView, signer: Seq<u8>, verifier: Seq<u8>, now: u64)
    requires
        hmac_sha256_of(signer, frame(claim_fields(c))) != hmac_sha256_of(
            verifier,
            frame(claim_fields(c)),
        ),
    ensures
        verify_outcome(verifier, token_bytes(c, signer), now) == Err::<ClaimsView, TokenError>(
            TokenError::SignatureInvalid,
        ),
{
    let p = frame(claim_fields(c));
    lemma_parse_round_trip(claim_fields(c), hmac_sha256_of(signer, p));
    lemma_claims_round_trip(c);
}


/// Whether two byte strings are equal, looking at every byte whatever the earlier ones held.
pub fn same_bytes(a: &[u8], b: &[u8]) -> (r: bool)
    ensures
        r == (a@ == b@),
{
    if a.len() != b.len() {
        return false;
    }
    let mut acc: u8 = 0;
    let mut i: usize = 0;
    assert(a@.subrange(0, 0) =~= b@.subrange(0, 0));
    while i < a.len()
        invariant
            a@.len() == b@.len(),
            i <= a@.len(),
            (acc == 0) == (a@.subrange(0, i as int) == b@.subrange(0, i as int)),
        decreases a@.len() - i,
    {
        let x = a[i];
        let y = b[i];
        let ghost old_acc = acc;
        acc = acc | (x ^ y);
        assert((acc == 0) == (old_acc == 0 && x == y)) by (bit_vector)
            requires
                acc == old_acc | (x ^ y),
        ;
        proof {
            let sa = a@.subrange(0, i as int);
            let sb = b@.subrange(0, i as int);
            assert(a@.subrange(0, i + 1) =~= sa.push(x));
            assert(b@.subrange(0, i + 1) =~= sb.push(y));
            if sa.push(x) == sb.push(y) {
                assert(sa =~= sa.push(x).drop_last());
                assert(sb =~= sb.push(y).drop_last());
                assert(sa.push(x).last() == x);
            }
        }
        i = i + 1;
    }
    assert(a@.subrange(0, i as int) =~= a@);
    assert(b@.subrange(0, i as int) =~= b@);
    acc == 0
}

pub(crate) proof fn lemma_ascii_is_utf8(b: Seq<u8>)
    requires
        forall|i: int| 0 <= i < b.len() ==> #[trigger] b[i] < 128,
    ensures
        encode_utf8(Seq::new(b.len(), |i: int| b[i] as char)) == b,
{
    let t = Seq::new(b.len(), |i: int| b[i] as char);
    assert(is_ascii_chars(t)) by {
        assert forall|i: int| 0 <= i < t.len() implies '\0' <= #[trigger] t[i] <= '\u{7f}' by {
            assert(t[i] == b[i] as char);
        }
    }
    is_ascii_chars_encode_utf8(t);
    assert(encode_utf8(t) =~= b);
}

/// Whether every byte is a hexadecimal digit or the separator.
pub open spec fn is_token_text(b: Seq<u8>) -> bool {
    forall|i: int| 0 <= i < b.len() ==> is_hex_digit(#[trigger] b[i]) || b[i] == FIELD_END
}

proof fn lemma_hex_is_token_text(b: Seq<u8>)
    ensures
        is_token_text(hex_of(b)),
{
    assert forall|i: int| 0 <= i < hex_of(b).len() implies is_hex_digit(#[trigger] hex_of(b)[i])
        || hex_of(b)[i] == FIELD_END by {
        let x = b[i / 2];
        assert(x / 16 < 16 && x % 16 < 16);
    }
}

proof fn lemma_frame_is_token_text(fields: Seq<Seq<u8>>)
    ensures
        is_token_text(frame(fields)),
    decreases fields.len(),
{
    if fields.len() > 0 {
        lemma_frame_is_token_text(fields.drop_last());
        lemma_hex_is_token_text(fields.last());
        let a = frame(fields.drop_last());
        let h = hex_of(fields.last());
        let f = a + h + seq![FIELD_END];
        assert forall|i: int| 0 <= i < f.len() implies is_hex_digit(#[trigger] f[i]) || f[i]
            == FIELD_END by {
            if i < a.len() {
                assert(f[i] == a[i]);
            } else if i < a.len() + h.len() {
                assert(f[i] == h[i - a.len()]);
            }
        }
    }
}

/// The UTF-8 bytes of a string, as a vector.
fn utf8_bytes(s: &String) -> (r: Vec<u8>)
    ensures
        r@ == encode_utf8(s@),
{
    slice_to_vec(s.as_str().as_bytes())
}

impl Claims {
    /// Claims for a subject, issued at `issued_at` and valid for `ttl` seconds (up to the
    /// largest representable time).
    pub fn new(
        subject_id: i64,
        subject_name: String,
        permissions: Vec<String>,
        issued_at: u64,
        ttl: u64,
    ) -> (r: Claims)
        ensures
            r.subject_id == subject_id,
            r.subject_name@ == subject_name@,
            r.permissions@ == permissions@,
            r.issued_at == issued_at,
            r.expires_at == if issued_at + ttl <= u64::MAX {
                (issued_at + ttl) as u64
            } else {
                u64::MAX
            },
    {
        Claims {
            subject_id,
            subject_name,
            permissions,
            issued_at,
            expires_at: issued_at.saturating_add(ttl),
        }
    }

    fn fields(&self) -> (r: Vec<Vec<u8>>)
        ensures
            views(r@) == claim_fields(self@),
    {
        let mut r: Vec<Vec<u8>> = Vec::new();
        r.push(u64_to_le_bytes(#[verifier::truncate] (self.subject_id as u64)));
        r.push(u64_to_le_bytes(self.issued_at));
        r.push(u64_to_le_bytes(self.expires_at));
        r.push(utf8_bytes(&self.subject_name));
        let ghost head = views(r@);
        let mut i: usize = 0;
        while i < self.permissions.len()
            invariant
                i <= self.permissions@.len(),
                views(r@) == head + encoded_texts(texts(self.permissions@)).subrange(0, i as int),
            decreases self.permissions@.len() - i,
        {
            let ghost r0 = r@;
            r.push(utf8_bytes(&self.permissions[i]));
            i = i + 1;
            assert(views(r@) =~= views(r0).push(encode_utf8(self.permissions@[i - 1]@)));
            assert(encoded_texts(texts(self.permissions@)).subrange(0, i as int) =~= encoded_texts(
                texts(self.permissions@),
            ).subrange(0, i - 1).push(encode_utf8(self.permissions@[i - 1]@)));
        }
        assert(encoded_texts(texts(self.permissions@)).subrange(0, i as int) =~= encoded_texts(
            texts(self.permissions@),
        ));
        assert(head =~= seq![
            spec_u64_to_le_bytes(#[verifier::truncate] (self.subject_id as u64)),
            spec_u64_to_le_bytes(self.issued_at),
            spec_u64_to_le_bytes(self.expires_at),
            encode_utf8(self.subject_name@),
        ]);
        r
    }

    /// Reads claims back from their fields.
    fn from_fields(f: &Vec<Vec<u8>>) -> (r: Option<Claims>)
        ensures
            match r {
                Some(c) => claims_of_fields(views(f@)) == Some(c@),
                None => claims_of_fields(views(f@)) is None,
            },
    {
        let ghost fv = views(f@);
        if f.len() < 4 || f[0].len() != 8 || f[1].len() != 8 || f[2].len() != 8 {
            return None;
        }
        assert(fv[0] == f@[0]@ && fv[1] == f@[1]@ && fv[2] == f@[2]@);
        let subject_id = #[verifier::truncate] (u64_from_le_bytes(f[0].as_slice()) as i64);
        let issued_at = u64_from_le_bytes(f[1].as_slice());
        let expires_at = u64_from_le_bytes(f[2].as_slice());
        let subject_name = match utf8_to_string(slice_to_vec(f[3].as_slice())) {
            Some(s) => s,
            None => {
                assert(fv[3] == f@[3]@);
                return None;
            },
        };
        proof {
            assert(fv[3] == f@[3]@);
            lemma_utf8_text(subject_name@);
        }
        let mut permissions: Vec<String> = Vec::new();
        let mut i: usize = 4;
        while i < f.len()
            invariant
                4 <= i <= f@.len(),
                fv == views(f@),
                forall|j: int| 3 <= j < i ==> (#[trigger] utf8_text(fv[j])) is Some,
                texts(permissions@) == decoded_texts(fv.subrange(4, i as int)),
            decreases f@.len() - i,
        {
            let ghost p0 = permissions@;
            match utf8_to_string(slice_to_vec(f[i].as_slice())) {
                Some(s) => {
                    proof {
                        assert(fv[i as int] == f@[i as int]@);
                        lemma_utf8_text(s@);
                    }
                    permissions.push(s);
                },
                None => {
                    assert(fv[i as int] == f@[i as int]@);
                    assert(utf8_text(fv[i as int]) is None);
                    return None;
                },
            }
            i = i + 1;
            assert(texts(permissions@) =~= texts(p0).push(utf8_text(fv[i - 1])->Some_0));
            assert(decoded_texts(fv.subrange(4, i as int)) =~= decoded_texts(
                fv.subrange(4, i - 1),
            ).push(utf8_text(fv[i - 1])->Some_0));
        }
        let c = Claims { subject_id, subject_name, permissions, issued_at, expires_at };
        assert(fv.subrange(4, i as int) =~= fv.subrange(4, fv.len() as int));
        assert(c@ == claims_of_fields(fv)->Some_0);
        Some(c)
    }

    /// Issues a token for these claims, signed with `secret`.
    pub fn create_token(&self, secret: &str) -> (r: String)
        ensures
            encode_utf8(r@) == token_bytes(self@, secret.spec_bytes()),
    {
        let fields = self.fields();
        let mut out = encode_frame(&fields);
        let ghost payload = out@;
        let sig = hmac_sha256(secret.as_bytes(), out.as_slice());
        push_hex(&mut out, sig.as_slice());
        proof {
            lemma_frame_is_token_text(claim_fields(self@));
            lemma_hex_is_token_text(sig@);
            assert forall|i: int| 0 <= i < out@.len() implies #[trigger] out@[i] < 128 by {
                if i < payload.len() {
                    assert(out@[i] == payload[i]);
                } else {
                    assert(out@[i] == hex_of(sig@)[i - payload.len()]);
                }
            }
            lemma_ascii_is_utf8(out@);
        }
        match utf8_to_string(out) {
            Some(s) => s,
            None => String::new(),
        }
    }

    /// Verifies a token under `secret` at time `now` (seconds since the epoch) and returns
    /// the claims it carries.
    pub fn verify(secret: &str, token: &str, now: u64) -> (r: Result<Claims, TokenError>)
        ensures
            match r {
                Ok(c) => verify_outcome(secret.spec_bytes(), token.spec_bytes(), now) == Ok::<
                    ClaimsView,
                    TokenError,
                >(c@),
                Err(e) => verify_outcome(secret.spec_bytes(), token.spec_bytes(), now) == Err::<
                    ClaimsView,
                    TokenError,
                >(e),
            },
    {
        Claims::verify_bytes(secret, token.as_bytes(), now)
    }

    /// Verifies a token given as bytes; see [`Claims::verify`].
    pub fn verify_bytes(secret: &str, token: &[u8], now: u64) -> (r: Result<Claims, TokenError>)
        ensures
            match r {
                Ok(c) => verify_outcome(secret.spec_bytes(), token@, now) == Ok::<
                    ClaimsView,
                    TokenError,
                >(c@),
                Err(e) => verify_outcome(secret.spec_bytes(), token@, now) == Err::<
                    ClaimsView,
                    TokenError,
                >(e),
            },
    {
        let pieces = split_pieces(token, FIELD_END);
        let ghost pv = views(pieces@);
        proof {
            lemma_split_nonempty(token@, FIELD_END);
        }
        let last = pieces.len() - 1;
        let mut fields: Vec<Vec<u8>> = Vec::new();
        let mut i: usize = 0;
        while i < last
            invariant
                pv == views(pieces@),
                pv == split_on(token@, FIELD_END),
                last == pv.len() - 1,
                i <= last,
                forall|j: int| 0 <= j < i ==> (#[trigger] unhex(pv[j])) is Some,
                views(fields@) == unhex_all(pv.subrange(0, i as int)),
            decreases last - i,
        {
            let ghost f0 = fields@;
            match decode_hex(pieces[i].as_slice()) {
                Some(v) => {
                    assert(pv[i as int] == pieces@[i as int]@);
                    fields.push(v);
                },
                None => {
                    assert(pv[i as int] == pieces@[i as int]@);
                    return Err(TokenError::Malformed);
                },
            }
            i = i + 1;
            assert(views(fields@) =~= views(f0).push(unhex(pv[i - 1])->Some_0));
            assert(unhex_all(pv.subrange(0, i as int)) =~= unhex_all(pv.subrange(0, i - 1)).push(
                unhex(pv[i - 1])->Some_0,
            ));
        }
        assert(pv[last as int] == pieces@[last as int]@);
        let sig = match decode_hex(pieces[last].as_slice()) {
            Some(v) => v,
            None => {
                return Err(TokenError::Malformed);
            },
        };
        assert(pv.subrange(0, i as int) =~= pv.drop_last());
        assert(parse_token(token@) == Some((views(fields@), sig@)));
        let claims = match Claims::from_fields(&fields) {
            Some(c) => c,
            None => {
                return Err(TokenError::Malformed);
            },
        };
        let payload = encode_frame(&fields);
        let expected = hmac_sha256(secret.as_bytes(), payload.as_slice());
        if !same_bytes(sig.as_slice(), expected.as_slice()) {
            return Err(TokenError::SignatureInvalid);
        }
        if now > claims.expires_at {
            return Err(TokenError::Expired);
        }
        Ok(claims)
    }
}

} // verus!
