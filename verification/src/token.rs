//! Bearer tokens: self-contained, signed grants of per-secret keys. A token
//! is `envseal_` followed by three URL-safe base64 parts joined by `.`: the
//! issuer's public key, the zstd-compressed JSON payload, and the Ed25519
//! signature of the first two parts (with their `.`).
use crate::crypto::{
    append_chars, ed25519_public_key, ed25519_signature, ed25519_valid_public_key,
    ed25519_verifies, verify_signature, SigningKey,
};
use crate::error::{ErrorModel, VaultError};
use crate::json::{json_byte_array, json_member, json_string, join, push_json_bytes, push_json_string};
use crate::strmap::StrMap;
use crate::vault::opt_view;
use crate::text::{
    bytes_eq, chars_of, decimal, decimal_chars_u64, has_prefix, rsplit_once, rsplit_once_chars,
    split_once, split_once_chars, starts_with_chars, string_from_chars,
};
use base64::Engine;
use vstd::prelude::*;
use vstd::utf8::encode_utf8;

verus! {

/// The URL-safe base64 digit of a 6-bit value.
pub open spec fn b64_digit(n: int) -> char {
    if n < 26 {
        (65 + n) as char
    } else if n < 52 {
        (97 + n - 26) as char
    } else if n < 62 {
        (48 + n - 52) as char
    } else if n == 62 {
        '-'
    } else {
        '_'
    }
}

/// URL-safe base64 without padding: each 3 bytes as 4 digits of 6 bits,
/// a last 1 or 2 bytes as 2 or 3 digits.
pub open spec fn b64url(s: Seq<u8>) -> Seq<char>
    decreases s.len(),
{
    if s.len() == 0 {
        seq![]
    } else if s.len() == 1 {
        let n = s[0] as int * 16;
        seq![b64_digit(n / 64), b64_digit(n % 64)]
    } else if s.len() == 2 {
        let n = (s[0] as int * 256 + s[1] as int) * 4;
        seq![b64_digit(n / 4096), b64_digit(n / 64 % 64), b64_digit(n % 64)]
    } else {
        let n = s[0] as int * 65536 + s[1] as int * 256 + s[2] as int;
        seq![b64_digit(n / 262144), b64_digit(n / 4096 % 64), b64_digit(n / 64 % 64), b64_digit(n % 64)]
            + b64url(s.skip(3))
    }
}

/// Distinct 6-bit values have distinct digits, none of them a `.`.
proof fn lemma_digit(a: int, b: int)
    requires
        0 <= a < 64,
        0 <= b < 64,
    ensures
        b64_digit(a) == b64_digit(b) ==> a == b,
        b64_digit(a) != '.',
{
}

/// The length of an encoding.
pub open spec fn b64url_len(n: nat) -> nat {
    (n / 3) * 4 + if n % 3 == 0 {
        0nat
    } else {
        (n % 3 + 1) as nat
    }
}

proof fn lemma_b64url_len(s: Seq<u8>)
    ensures
        b64url(s).len() == b64url_len(s.len()),
    decreases s.len(),
{
    if s.len() >= 3 {
        lemma_b64url_len(s.skip(3));
        assert(b64url_len(s.len()) == 4 + b64url_len((s.len() - 3) as nat)) by (nonlinear_arith)
            requires s.len() >= 3;
    }
}

/// Encodings of different lengths differ in length.
proof fn lemma_b64url_len_injective(n: nat, m: nat)
    requires
        b64url_len(n) == b64url_len(m),
    ensures
        n == m,
{
    assert(n == m) by (nonlinear_arith)
        requires
            (n / 3) * 4 + (if n % 3 == 0 { 0nat } else { (n % 3 + 1) as nat }) == (m / 3) * 4 + (if m % 3 == 0 {
                0nat
            } else {
                (m % 3 + 1) as nat
            }),
    ;
}

/// Three bytes are fixed by their four digits.
proof fn lemma_group3(a: int, b: int)
    requires
        0 <= a < 16777216,
        0 <= b < 16777216,
        a / 262144 == b / 262144,
        a / 4096 % 64 == b / 4096 % 64,
        a / 64 % 64 == b / 64 % 64,
        a % 64 == b % 64,
    ensures
        a == b,
{
    assert(a == (a / 262144) * 262144 + (a / 4096 % 64) * 4096 + (a / 64 % 64) * 64 + a % 64) by (nonlinear_arith)
        requires 0 <= a < 16777216;
    assert(b == (b / 262144) * 262144 + (b / 4096 % 64) * 4096 + (b / 64 % 64) * 64 + b % 64) by (nonlinear_arith)
        requires 0 <= b < 16777216;
}

/// Bytes are fixed by the number they make together.
proof fn lemma_bytes_number(a0: int, a1: int, a2: int, b0: int, b1: int, b2: int)
    requires
        0 <= a0 < 256,
        0 <= a1 < 256,
        0 <= a2 < 256,
        0 <= b0 < 256,
        0 <= b1 < 256,
        0 <= b2 < 256,
        a0 * 65536 + a1 * 256 + a2 == b0 * 65536 + b1 * 256 + b2,
    ensures
        a0 == b0,
        a1 == b1,
        a2 == b2,
{
    assert(a0 == b0 && a1 == b1 && a2 == b2) by (nonlinear_arith)
        requires
            0 <= a0 < 256,
            0 <= a1 < 256,
            0 <= a2 < 256,
            0 <= b0 < 256,
            0 <= b1 < 256,
            0 <= b2 < 256,
            a0 * 65536 + a1 * 256 + a2 == b0 * 65536 + b1 * 256 + b2,
    ;
}

/// No digit of an encoding is a `.`.
proof fn lemma_b64url_no_dot(s: Seq<u8>)
    ensures
        !b64url(s).contains('.'),
    decreases s.len(),
{
    let e = b64url(s);
    if s.len() == 1 {
        let n = s[0] as int * 16;
        lemma_digit(n / 64, 0);
        lemma_digit(n % 64, 0);
        assert(e == seq![b64_digit(n / 64), b64_digit(n % 64)]);
    } else if s.len() == 2 {
        let n = (s[0] as int * 256 + s[1] as int) * 4;
        lemma_digit(n / 4096, 0);
        lemma_digit(n / 64 % 64, 0);
        lemma_digit(n % 64, 0);
    } else if s.len() >= 3 {
        let n = s[0] as int * 65536 + s[1] as int * 256 + s[2] as int;
        lemma_digit(n / 262144, 0);
        lemma_digit(n / 4096 % 64, 0);
        lemma_digit(n / 64 % 64, 0);
        lemma_digit(n % 64, 0);
        lemma_b64url_no_dot(s.skip(3));
        let h = seq![b64_digit(n / 262144), b64_digit(n / 4096 % 64), b64_digit(n / 64 % 64), b64_digit(n % 64)];
        let r = b64url(s.skip(3));
        assert(e == h + r);
        if e.contains('.') {
            let i = choose|i: int| 0 <= i < e.len() && e[i] == '.';
            if i >= 4 {
                assert(r[i - 4] == '.');
            }
        }
    }
}

/// Different bytes encode differently.
proof fn lemma_b64url_injective(s: Seq<u8>, t: Seq<u8>)
    requires
        b64url(s) == b64url(t),
    ensures
        s == t,
    decreases s.len(),
{
    lemma_b64url_len(s);
    lemma_b64url_len(t);
    lemma_b64url_len_injective(s.len(), t.len());
    let e = b64url(s);
    if s.len() == 1 {
        let n = s[0] as int * 16;
        let m = t[0] as int * 16;
        assert(e[0] == b64_digit(n / 64) && e[0] == b64_digit(m / 64));
        assert(e[1] == b64_digit(n % 64) && e[1] == b64_digit(m % 64));
        lemma_digit(n / 64, m / 64);
        lemma_digit(n % 64, m % 64);
        assert(n == m);
        assert(s =~= t);
    } else if s.len() == 2 {
        let n = (s[0] as int * 256 + s[1] as int) * 4;
        let m = (t[0] as int * 256 + t[1] as int) * 4;
        assert(e[0] == b64_digit(n / 4096) && e[0] == b64_digit(m / 4096));
        assert(e[1] == b64_digit(n / 64 % 64) && e[1] == b64_digit(m / 64 % 64));
        assert(e[2] == b64_digit(n % 64) && e[2] == b64_digit(m % 64));
        lemma_digit(n / 4096, m / 4096);
        lemma_digit(n / 64 % 64, m / 64 % 64);
        lemma_digit(n % 64, m % 64);
        lemma_group3(n, m);
        lemma_bytes_number(0, s[0] as int, s[1] as int, 0, t[0] as int, t[1] as int);
        assert(s =~= t);
    } else if s.len() >= 3 {
        let n = s[0] as int * 65536 + s[1] as int * 256 + s[2] as int;
        let m = t[0] as int * 65536 + t[1] as int * 256 + t[2] as int;
        assert(e[0] == b64_digit(n / 262144) && e[0] == b64_digit(m / 262144));
        assert(e[1] == b64_digit(n / 4096 % 64) && e[1] == b64_digit(m / 4096 % 64));
        assert(e[2] == b64_digit(n / 64 % 64) && e[2] == b64_digit(m / 64 % 64));
        assert(e[3] == b64_digit(n % 64) && e[3] == b64_digit(m % 64));
        lemma_digit(n / 262144, m / 262144);
        lemma_digit(n / 4096 % 64, m / 4096 % 64);
        lemma_digit(n / 64 % 64, m / 64 % 64);
        lemma_digit(n % 64, m % 64);
        lemma_group3(n, m);
        lemma_bytes_number(s[0] as int, s[1] as int, s[2] as int, t[0] as int, t[1] as int, t[2] as int);
        assert(b64url(s.skip(3)) == e.skip(4));
        assert(b64url(t.skip(3)) == e.skip(4));
        lemma_b64url_injective(s.skip(3), t.skip(3));
        assert(s =~= seq![s[0], s[1], s[2]] + s.skip(3));
        assert(t =~= seq![t[0], t[1], t[2]] + t.skip(3));
    }
}

/// Decoding an encoding gives back the bytes.
proof fn lemma_b64_decoded(s: Seq<u8>)
    ensures
        b64_decoded(b64url(s)) == Some(s),
{
    let x = choose|x: Seq<u8>| #[trigger] b64url(x) == b64url(s);
    lemma_b64url_injective(x, s);
}

/// `base64::engine::general_purpose::URL_SAFE_NO_PAD.encode`.
#[verifier::external_body]
fn b64url_encode(data: &[u8]) -> (r: String)
    ensures
        r@ == b64url(data@),
{
    base64::engine::general_purpose::URL_SAFE_NO_PAD.encode(data)
}

/// `base64::engine::general_purpose::URL_SAFE_NO_PAD.decode`: the bytes
/// whose encoding the text is, where there are any (this engine accepts
/// only the canonical unpadded encoding).
#[verifier::external_body]
fn b64url_decode(s: &str) -> (r: Option<Vec<u8>>)
    ensures
        r matches Some(x) ==> b64url(x@) == s@,
        gives_every_preimage(r, s@),
{
    base64::engine::general_purpose::URL_SAFE_NO_PAD.decode(s).ok()
}

/// Decoding gives back whatever bytes encode to the text.
pub open spec fn gives_every_preimage(r: Option<Vec<u8>>, s: Seq<char>) -> bool {
    forall|x: Seq<u8>| #[trigger] b64url(x) == s ==> (r matches Some(y) && y@ == x)
}

/// What decoding URL-safe base64 gives.
pub open spec fn b64_decoded(s: Seq<char>) -> Option<Seq<u8>> {
    if exists|x: Seq<u8>| #[trigger] b64url(x) == s {
        Some(choose|x: Seq<u8>| #[trigger] b64url(x) == s)
    } else {
        None
    }
}

fn decode_part(s: &[char]) -> (r: Option<Vec<u8>>)
    ensures
        match (r, b64_decoded(s@)) {
            (Some(a), Some(b)) => a@ == b,
            (None, None) => true,
            _ => false,
        },
{
    let t = string_from_chars(s);
    let r = b64url_decode(t.as_str());
    proof {
        if exists|x: Seq<u8>| #[trigger] b64url(x) == s@ {
            let x = choose|x: Seq<u8>| #[trigger] b64url(x) == s@;
            assert(b64url(x) == t@);
        }
    }
    r
}

/// `zstd::encode_all` at a compression level.
pub uninterp spec fn zstd_compress(data: Seq<u8>, level: int) -> Seq<u8>;

/// `zstd::decode_all`: the data of the frames, where they decode.
pub uninterp spec fn zstd_decompress(data: Seq<u8>) -> Option<Seq<u8>>;

/// `zstd::encode_all` on bytes into a `Vec`; what it compresses
/// decompresses back. It does not fail: the zstd source clamps the level to
/// the supported range, loads an empty dictionary, and writes into a
/// growable buffer, so its only error would be the compression context
/// failing to allocate memory, which, as for every allocation here, is not
/// a result the library handles.
#[verifier::external_body]
fn zstd_encode(data: &[u8], level: i32) -> (r: Option<Vec<u8>>)
    ensures
        r is Some,
        r matches Some(c) ==> c@ == zstd_compress(data@, level as int) && zstd_decompress(c@)
            == Some(data@),
{
    zstd::encode_all(data, level).ok()
}

/// `zstd::decode_all` on bytes.
#[verifier::external_body]
fn zstd_decode(data: &[u8]) -> (r: Option<Vec<u8>>)
    ensures
        match (r, zstd_decompress(data@)) {
            (Some(a), Some(b)) => a@ == b,
            (None, None) => true,
            _ => false,
        },
{
    zstd::decode_all(data).ok()
}

/// The key material a token grants.
pub enum TokenKeyMaterial {
    /// The entry keys of individual secrets, by name.
    GranularKeys(StrMap<Vec<u8>>),
}

/// What a token carries.
pub struct TokenPayload {
    /// The session scope of the (group, tag) the token is for.
    pub scope: String,
    pub key_material: TokenKeyMaterial,
    /// Who or what the token was issued to.
    pub sub: String,
    /// Issued at, in seconds since the Unix epoch.
    pub iat: u64,
    /// Expires at, in seconds since the Unix epoch.
    pub exp: Option<u64>,
    pub description: Option<String>,
}

impl TokenPayload {
    /// The granted keys.
    pub open spec fn keys(self) -> StrMap<Vec<u8>> {
        match self.key_material {
            TokenKeyMaterial::GranularKeys(k) => k,
        }
    }
}

pub open spec fn null_json() -> Seq<char> {
    seq!['n', 'u', 'l', 'l']
}

/// The members `"name":[bytes]` of the granted keys, as a JSON object.
pub open spec fn keys_json(e: Seq<(Seq<char>, Vec<u8>)>) -> Seq<char> {
    seq!['{'] + join(e.map_values(|p: (Seq<char>, Vec<u8>)| json_member(p.0, json_byte_array(p.1@))))
        + seq!['}']
}

/// The payload's JSON, as `serde_json` writes the payload struct: members
/// in declaration order, the enum as `{"GranularKeys":{..}}`, absent
/// options as `null`.
pub open spec fn payload_json(
    scope: Seq<char>,
    keys: Seq<(Seq<char>, Vec<u8>)>,
    sub: Seq<char>,
    iat: nat,
    exp: Option<nat>,
    description: Option<Seq<char>>,
) -> Seq<char> {
    seq!['{', '"', 's', 'c', 'o', 'p', 'e', '"', ':'] + json_string(scope) + seq![
        ',',
        '"',
        'k',
        'e',
        'y',
        '_',
        'm',
        'a',
        't',
        'e',
        'r',
        'i',
        'a',
        'l',
        '"',
        ':',
        '{',
        '"',
        'G',
        'r',
        'a',
        'n',
        'u',
        'l',
        'a',
        'r',
        'K',
        'e',
        'y',
        's',
        '"',
        ':',
    ] + keys_json(keys) + seq!['}', ',', '"', 's', 'u', 'b', '"', ':'] + json_string(sub) + seq![
        ',',
        '"',
        'i',
        'a',
        't',
        '"',
        ':',
    ] + decimal(iat) + seq![',', '"', 'e', 'x', 'p', '"', ':'] + match exp {
        Some(n) => decimal(n),
        None => null_json(),
    } + seq![',', '"', 'd', 'e', 's', 'c', 'r', 'i', 'p', 't', 'i', 'o', 'n', '"', ':'] + match description {
        Some(d) => json_string(d),
        None => null_json(),
    } + seq!['}']
}

/// The JSON of a payload.
pub open spec fn payload_text(p: TokenPayload) -> Seq<char> {
    payload_json(
        p.scope@,
        p.keys().entries(),
        p.sub@,
        p.iat as nat,
        match p.exp {
            Some(n) => Some(n as nat),
            None => None,
        },
        match p.description {
            Some(d) => Some(d@),
            None => None,
        },
    )
}

fn push_keys_json(out: &mut Vec<char>, keys: &StrMap<Vec<u8>>)
    ensures
        final(out)@ == old(out)@ + keys_json(keys.entries()),
{
    let ghost o0 = out@;
    let ghost items = keys.entries().map_values(
        |p: (Seq<char>, Vec<u8>)| json_member(p.0, json_byte_array(p.1@)),
    );
    out.push('{');
    let n = keys.len();
    let mut i: usize = 0;
    while i < n
        invariant
            i <= n,
            n == keys.entries().len(),
            items == keys.entries().map_values(
                |p: (Seq<char>, Vec<u8>)| json_member(p.0, json_byte_array(p.1@)),
            ),
            out@ == o0 + seq!['{'] + join(items.take(i as int)),
        decreases n - i,
    {
        proof {
            assert(items.take(i + 1).drop_last() == items.take(i as int));
            if i == 0 {
                assert(items.take(1)[0] == items[0]);
            }
        }
        if i > 0 {
            out.push(',');
        }
        let k = keys.key_at(i);
        let v = keys.value_at(i);
        push_json_string(out, k.as_str());
        out.push(':');
        push_json_bytes(out, v.as_slice());
        i = i + 1;
    }
    assert(items.take(n as int) == items);
    out.push('}');
}

fn push_lit(out: &mut Vec<char>, s: &[char])
    ensures
        final(out)@ == old(out)@ + s@,
{
    append_chars(out, s);
}

impl TokenPayload {
    /// The payload's JSON text; see `payload_json`.
    pub fn to_json(&self) -> (s: String)
        ensures
            s@ == payload_text(*self),
    {
        let mut out: Vec<char> = Vec::new();
        let l1: Vec<char> = vec!['{', '"', 's', 'c', 'o', 'p', 'e', '"', ':'];
        push_lit(&mut out, l1.as_slice());
        push_json_string(&mut out, self.scope.as_str());
        let l2: Vec<char> = vec![
            ',',
            '"',
            'k',
            'e',
            'y',
            '_',
            'm',
            'a',
            't',
            'e',
            'r',
            'i',
            'a',
            'l',
            '"',
            ':',
            '{',
            '"',
            'G',
            'r',
            'a',
            'n',
            'u',
            'l',
            'a',
            'r',
            'K',
            'e',
            'y',
            's',
            '"',
            ':',
        ];
        push_lit(&mut out, l2.as_slice());
        match &self.key_material {
            TokenKeyMaterial::GranularKeys(k) => push_keys_json(&mut out, k),
        }
        let l3: Vec<char> = vec!['}', ',', '"', 's', 'u', 'b', '"', ':'];
        push_lit(&mut out, l3.as_slice());
        push_json_string(&mut out, self.sub.as_str());
        let l4: Vec<char> = vec![',', '"', 'i', 'a', 't', '"', ':'];
        push_lit(&mut out, l4.as_slice());
        let d = decimal_chars_u64(self.iat);
        push_lit(&mut out, d.as_slice());
        let l5: Vec<char> = vec![',', '"', 'e', 'x', 'p', '"', ':'];
        push_lit(&mut out, l5.as_slice());
        let null: Vec<char> = vec!['n', 'u', 'l', 'l'];
        match self.exp {
            Some(n) => {
                let d = decimal_chars_u64(n);
                push_lit(&mut out, d.as_slice());
            },
            None => push_lit(&mut out, null.as_slice()),
        }
        let l6: Vec<char> = vec![
            ',',
            '"',
            'd',
            'e',
            's',
            'c',
            'r',
            'i',
            'p',
            't',
            'i',
            'o',
            'n',
            '"',
            ':',
        ];
        push_lit(&mut out, l6.as_slice());
        match &self.description {
            Some(d) => push_json_string(&mut out, d.as_str()),
            None => push_lit(&mut out, null.as_slice()),
        }
        out.push('}');
        proof {
            assert(out@ =~= payload_text(*self));
        }
        string_from_chars(out.as_slice())
    }

    /// Refuses a payload whose expiry (seconds since the Unix epoch) is
    /// before `now`.
    pub fn check_expiry(&self, now: u64) -> (r: Result<(), VaultError>)
        ensures
            match self.exp {
                Some(e) if now > e => r matches Err(x) && x@ == ErrorModel::TokenExpired,
                _ => r is Ok,
            },
    {
        match self.exp {
            Some(e) => if now > e {
                Err(VaultError::TokenExpired)
            } else {
                Ok(())
            },
            None => Ok(()),
        }
    }
}

pub open spec fn token_prefix() -> Seq<char> {
    seq!['e', 'n', 'v', 's', 'e', 'a', 'l', '_']
}

/// The signed part of a token: the issuer's public key and the compressed
/// payload JSON, each in URL-safe base64, joined by `.`.
pub open spec fn token_signed(seed: Seq<u8>, json: Seq<char>) -> Seq<char> {
    b64url(ed25519_public_key(seed)) + seq!['.'] + b64url(zstd_compress(encode_utf8(json), 3))
}

/// The token for a payload JSON, issued with a signing key.
pub open spec fn token_text(seed: Seq<u8>, json: Seq<char>) -> Seq<char> {
    let signed = token_signed(seed, json);
    token_prefix() + signed + seq!['.'] + b64url(ed25519_signature(seed, encode_utf8(signed)))
}

/// The payload JSON a token is issued for: expiring `ttl` seconds after
/// `now`, where given.
pub open spec fn issued_json(
    scope: Seq<char>,
    keys: Seq<(Seq<char>, Vec<u8>)>,
    sub: Seq<char>,
    now: u64,
    ttl: Option<u64>,
    description: Option<Seq<char>>,
) -> Seq<char> {
    payload_json(
        scope,
        keys,
        sub,
        now as nat,
        match ttl {
            Some(t) => Some((now + t) as nat),
            None => None,
        },
        description,
    )
}

/// Issues and opens tokens.
pub struct TokenManager;

impl TokenManager {
    /// Issues a token: the payload (expiring `ttl_seconds` after `now`, where
    /// given), compressed, signed with the vault's signing key.
    #[verifier::rlimit(40)]
    pub fn create(
        signing_key: &SigningKey,
        scope: &str,
        keys: StrMap<Vec<u8>>,
        sub: &str,
        ttl_seconds: Option<u64>,
        description: Option<&str>,
        now: u64,
    ) -> (r: Result<String, VaultError>)
        requires
            ttl_seconds matches Some(t) ==> now + t <= u64::MAX,
        ensures
            r is Ok,
            match r {
                Ok(t) => {
                    let json = issued_json(scope@, keys.entries(), sub@, now, ttl_seconds, opt_view(description));
                    &&& t@ == token_text(signing_key.seed@, json)
                    &&& token_opened(t@, ed25519_public_key(signing_key.seed@)) == Ok::<Seq<u8>, ErrorModel>(
                        encode_utf8(json),
                    )
                },
                Err(e) => e@ == ErrorModel::TokenCompression,
            },
    {
        let ghost keys_v = keys.entries();
        let exp = match ttl_seconds {
            Some(t) => Some(now + t),
            None => None,
        };
        let desc = match description {
            Some(d) => Some(String::from_str(d)),
            None => None,
        };
        let payload = TokenPayload {
            scope: String::from_str(scope),
            key_material: TokenKeyMaterial::GranularKeys(keys),
            sub: String::from_str(sub),
            iat: now,
            exp,
            description: desc,
        };
        let json = payload.to_json();
        let ghost js = payload_json(
            scope@,
            keys_v,
            sub@,
            now as nat,
            match ttl_seconds {
                Some(t) => Some((now + t) as nat),
                None => None,
            },
            match description {
                Some(d) => Some(d@),
                None => None,
            },
        );
        assert(json@ == js);
        let compressed = match zstd_encode(json.as_str().as_bytes(), 3) {
            Some(c) => c,
            None => return Err(VaultError::TokenCompression),
        };
        let body = b64url_encode(compressed.as_slice());
        let pk = signing_key.verifying_key_bytes();
        let pk64 = b64url_encode(&pk);
        let mut signed: Vec<char> = chars_of(pk64.as_str());
        signed.push('.');
        let bc = chars_of(body.as_str());
        append_chars(&mut signed, bc.as_slice());
        let signed_s = string_from_chars(signed.as_slice());
        let ghost sg = b64url(ed25519_public_key(signing_key.seed@)) + seq!['.'] + b64url(
            zstd_compress(encode_utf8(js), 3),
        );
        assert(signed_s@ == sg);
        let sig = signing_key.sign(signed_s.as_str().as_bytes());
        let sig64 = b64url_encode(&sig);
        let mut out: Vec<char> = vec!['e', 'n', 'v', 's', 'e', 'a', 'l', '_'];
        append_chars(&mut out, signed.as_slice());
        out.push('.');
        let sc = chars_of(sig64.as_str());
        append_chars(&mut out, sc.as_slice());
        proof {
            assert(pk@.len() == 32);
            assert(sig@.len() == 64);
            lemma_token_opens(signing_key.seed@, js);
        }
        Ok(string_from_chars(out.as_slice()))
    }
}

/// What opening a token against a vault's public key gives: the payload's
/// JSON bytes where the token is well formed, issued by that key and its
/// signature holds; else why not.
pub open spec fn token_opened(token: Seq<char>, public_key: Seq<u8>) -> Result<Seq<u8>, ErrorModel> {
    let clean = if has_prefix(token, token_prefix()) {
        token.skip(8)
    } else {
        token
    };
    match rsplit_once(clean, '.') {
        None => Err(ErrorModel::InvalidTokenFormat),
        Some((signed, sig64)) => match split_once(signed, '.') {
            None => Err(ErrorModel::InvalidTokenFormat),
            Some((pk64, body64)) => match b64_decoded(pk64) {
                None => Err(ErrorModel::TokenEncoding),
                Some(pk) => if pk != public_key {
                    Err(ErrorModel::TokenWrongVault)
                } else if pk.len() != 32 {
                    Err(ErrorModel::TokenKeyLength)
                } else if !ed25519_valid_public_key(pk) {
                    Err(ErrorModel::TokenInvalidKey)
                } else {
                    match b64_decoded(sig64) {
                        None => Err(ErrorModel::TokenEncoding),
                        Some(sig) => if sig.len() != 64 {
                            Err(ErrorModel::TokenKeyLength)
                        } else if !ed25519_verifies(pk, encode_utf8(signed), sig) {
                            Err(ErrorModel::TokenSignatureFailed)
                        } else {
                            match b64_decoded(body64) {
                                None => Err(ErrorModel::TokenEncoding),
                                Some(c) => match zstd_decompress(c) {
                                    None => Err(ErrorModel::TokenDecompression),
                                    Some(j) => Ok(j),
                                },
                            }
                        },
                    }
                },
            },
        },
    }
}

/// A token opens, under the public key of the key that issued it, to the
/// payload JSON it was issued for: given that the issuer's public key is a
/// valid 32-byte key, that its signature over the signed part is 64 bytes
/// and verifies, and that the compressed payload decompresses back.
pub proof fn lemma_token_opens(seed: Seq<u8>, json: Seq<char>)
    requires
        ed25519_public_key(seed).len() == 32,
        ed25519_valid_public_key(ed25519_public_key(seed)),
        ed25519_signature(seed, encode_utf8(token_signed(seed, json))).len() == 64,
        ed25519_verifies(
            ed25519_public_key(seed),
            encode_utf8(token_signed(seed, json)),
            ed25519_signature(seed, encode_utf8(token_signed(seed, json))),
        ),
        zstd_decompress(zstd_compress(encode_utf8(json), 3)) == Some(encode_utf8(json)),
    ensures
        token_opened(token_text(seed, json), ed25519_public_key(seed)) == Ok::<Seq<u8>, ErrorModel>(
            encode_utf8(json),
        ),
{
    let pk = ed25519_public_key(seed);
    let body = zstd_compress(encode_utf8(json), 3);
    let pk64 = b64url(pk);
    let body64 = b64url(body);
    let signed = token_signed(seed, json);
    let sig = ed25519_signature(seed, encode_utf8(signed));
    let sig64 = b64url(sig);
    let t = token_text(seed, json);
    assert(t.take(8) =~= token_prefix());
    let clean = t.skip(8);
    assert(clean =~= signed + seq!['.'] + sig64);
    lemma_b64url_no_dot(sig);
    lemma_b64url_no_dot(pk);
    lemma_b64url_no_dot(body);
    let i = signed.len() as int;
    assert(crate::text::is_last_index(clean, '.', i)) by {
        assert forall|j: int| i < j < clean.len() implies clean[j] != '.' by {
            assert(clean[j] == sig64[j - i - 1]);
        }
    }
    let ci = choose|k: int| crate::text::is_last_index(clean, '.', k);
    crate::text::lemma_last_index_unique(clean, '.', ci, i);
    assert(clean.take(i) =~= signed);
    assert(clean.skip(i + 1) =~= sig64);
    let p = pk64.len() as int;
    assert(crate::text::is_first_index(signed, '.', p)) by {
        assert forall|j: int| 0 <= j < p implies signed[j] != '.' by {
            assert(signed[j] == pk64[j]);
        }
    }
    let fi = choose|k: int| crate::text::is_first_index(signed, '.', k);
    crate::text::lemma_first_index_unique(signed, '.', fi, p);
    assert(signed.take(p) =~= pk64);
    assert(signed.skip(p + 1) =~= body64);
    lemma_b64_decoded(pk);
    lemma_b64_decoded(sig);
    lemma_b64_decoded(body);
}

fn array64(v: &[u8]) -> (a: [u8; 64])
    requires
        v@.len() == 64,
    ensures
        a@ == v@,
{
    let mut a = [0u8; 64];
    let mut i: usize = 0;
    while i < 64
        invariant
            i <= 64,
            v@.len() == 64,
            forall|j: int| 0 <= j < i ==> a@[j] == v@[j],
        decreases 64 - i,
    {
        a[i] = v[i];
        i = i + 1;
    }
    assert(a@ =~= v@);
    a
}

impl TokenManager {
    /// Opens a token against a vault's public key: checks its form, its
    /// issuer and its signature, and gives the payload's JSON bytes; see
    /// `token_opened`. (Reading the JSON into a payload, and its expiry, are
    /// the caller's next steps.)
    pub fn verify_and_extract(token_str: &str, public_key: &[u8]) -> (r: Result<Vec<u8>, VaultError>)
        ensures
            match (r, token_opened(token_str@, public_key@)) {
                (Ok(j), Ok(sj)) => j@ == sj,
                (Err(e), Err(m)) => e@ == m,
                _ => false,
            },
    {
        let t = chars_of(token_str);
        let prefix: Vec<char> = vec!['e', 'n', 'v', 's', 'e', 'a', 'l', '_'];
        let clean = if starts_with_chars(t.as_slice(), prefix.as_slice()) {
            crate::text::slice_range(t.as_slice(), 8, t.len())
        } else {
            t
        };
        let (signed, sig64) = match rsplit_once_chars(clean.as_slice(), '.') {
            None => return Err(VaultError::InvalidTokenFormat),
            Some(x) => x,
        };
        let (pk64, body64) = match split_once_chars(signed.as_slice(), '.') {
            None => return Err(VaultError::InvalidTokenFormat),
            Some(x) => x,
        };
        let pk = match decode_part(pk64.as_slice()) {
            None => return Err(VaultError::TokenEncoding),
            Some(p) => p,
        };
        if !bytes_eq(pk.as_slice(), public_key) {
            return Err(VaultError::TokenWrongVault);
        }
        if pk.len() != 32 {
            return Err(VaultError::TokenKeyLength);
        }
        let pka = crate::crypto::array32(pk.as_slice());
        assert(pk@.take(32) == pk@);
        if !crate::crypto::ed25519_key_decodes(&pka) {
            return Err(VaultError::TokenInvalidKey);
        }
        let sig = match decode_part(sig64.as_slice()) {
            None => return Err(VaultError::TokenEncoding),
            Some(s) => s,
        };
        if sig.len() != 64 {
            return Err(VaultError::TokenKeyLength);
        }
        let siga = array64(sig.as_slice());
        let signed_s = string_from_chars(signed.as_slice());
        match verify_signature(&pka, signed_s.as_str().as_bytes(), &siga) {
            Some(true) => {},
            _ => return Err(VaultError::TokenSignatureFailed),
        }
        let compressed = match decode_part(body64.as_slice()) {
            None => return Err(VaultError::TokenEncoding),
            Some(c) => c,
        };
        match zstd_decode(compressed.as_slice()) {
            None => Err(VaultError::TokenDecompression),
            Some(j) => Ok(j),
        }
    }
}

} // verus!
