use vstd::prelude::*;

use crate::claims::TokenData;
use crate::claims::find_value;
use crate::errors::DecodeError;
use crate::errors::EncodeError;
use crate::ext::ascii_view;
use crate::ext::b64url_decoded;
use crate::ext::b64url_of;
use crate::ext::hmac_sha256;
use crate::json::json_bytes;
use crate::parse::sp_document;
use crate::value::SpecValue;
use crate::value::Value;
use crate::value::encodable;
use crate::value::entries_view;
use crate::value::spec_lookup;
use crate::value::wire_of;
use vstd::string::StrSliceExecFns;
use vstd::string::StringSliceAdditionalSpecFns;

verus! {

broadcast use vstd::seq::group_seq_axioms, vstd::std_specs::vec::group_vec_axioms;

/// The models of a sequence of byte strings.
pub open spec fn bytes_view(s: Seq<Vec<u8>>) -> Seq<Seq<u8>> {
    Seq::new(
        s.len(),
        |i: int| if 0 <= i < s.len() {
            s[i]@
        } else {
            Seq::empty()
        },
    )
}

/// The models of a sequence of strings.
pub open spec fn strs_view(s: Seq<String>) -> Seq<Seq<char>> {
    Seq::new(
        s.len(),
        |i: int| if 0 <= i < s.len() {
            s[i]@
        } else {
            Seq::empty()
        },
    )
}

/// The fixed token header: HMAC-SHA256, token type JWT.
pub open spec fn spec_header() -> SpecValue {
    SpecValue::Dict(
        seq![("alg"@, SpecValue::Str("HS256"@)), ("typ"@, SpecValue::Str("JWT"@))],
    )
}

/// The JSON bytes of the fixed header.
pub open spec fn spec_header_bytes() -> Seq<u8> {
    json_bytes(spec_header())
}

/// The wire JSON bytes of a claims dictionary encoded at instant `now`.
pub open spec fn spec_payload_bytes(claims: Seq<(Seq<char>, SpecValue)>, now: int) -> Seq<u8> {
    json_bytes(wire_of(SpecValue::Dict(claims), now))
}

/// The signing input: base64url header, a dot, base64url payload.
pub open spec fn spec_msg_bytes(claims: Seq<(Seq<char>, SpecValue)>, now: int) -> Seq<u8> {
    b64url_of(spec_header_bytes()) + seq![46u8] + b64url_of(spec_payload_bytes(claims, now))
}

/// The complete compact token: signing input, a dot, base64url signature.
pub open spec fn spec_token_bytes(
    claims: Seq<(Seq<char>, SpecValue)>,
    now: int,
    secret: Seq<u8>,
) -> Seq<u8> {
    spec_msg_bytes(claims, now) + seq![46u8] + b64url_of(
        hmac_sha256(spec_msg_bytes(claims, now), secret),
    )
}

/// Pure ASCII with no dot: what every base64url segment looks like.
pub open spec fn no_dot_ascii(s: Seq<u8>) -> bool {
    forall|k: int| 0 <= k < s.len() ==> s[k] < 128 && s[k] != 46
}

/// Facts about the three base64url segments of an encoded token that the
/// encode path establishes through its trusted calls: each segment decodes
/// back to its source, contains no dot, and is non-empty (the signature
/// segment, encoding the 32-byte tag, is exactly 43 characters).
pub open spec fn spec_b64_facts(
    claims: Seq<(Seq<char>, SpecValue)>,
    now: int,
    secret: Seq<u8>,
) -> bool {
    &&& b64url_decoded(b64url_of(spec_header_bytes())) == Some(spec_header_bytes())
    &&& b64url_decoded(b64url_of(spec_payload_bytes(claims, now))) == Some(
        spec_payload_bytes(claims, now),
    )
    &&& b64url_decoded(b64url_of(hmac_sha256(spec_msg_bytes(claims, now), secret))) == Some(
        hmac_sha256(spec_msg_bytes(claims, now), secret),
    )
    &&& no_dot_ascii(b64url_of(spec_header_bytes()))
    &&& no_dot_ascii(b64url_of(spec_payload_bytes(claims, now)))
    &&& no_dot_ascii(b64url_of(hmac_sha256(spec_msg_bytes(claims, now), secret)))
    &&& b64url_of(spec_header_bytes()).len() > 0
    &&& b64url_of(spec_payload_bytes(claims, now)).len() > 0
    &&& b64url_of(hmac_sha256(spec_msg_bytes(claims, now), secret)).len() == 43
}

/// Everything `encode_at` promises, as one predicate over the encode
/// instant: success exactly when the claims are encodable at that instant,
/// the token text exactly the three dot-joined base64url segments, and every
/// failure the invalid-claims error.
pub open spec fn spec_encode_outcome(
    claims: Seq<(Seq<char>, SpecValue)>,
    secret: Seq<u8>,
    now: int,
    r: Result<String, EncodeError>,
) -> bool {
    match r {
        Result::Ok(tok) => encodable(SpecValue::Dict(claims), now) && tok@ == ascii_view(
            spec_token_bytes(claims, now, secret),
        ) && spec_b64_facts(claims, now, secret),
        Result::Err(e) => !encodable(SpecValue::Dict(claims), now) && e
            == EncodeError::InvalidClaims,
    }
}

/// Positions `i < j` are the only dots of `tb`.
pub open spec fn well_split(tb: Seq<u8>, i: int, j: int) -> bool {
    &&& 0 <= i < j < tb.len()
    &&& tb[i] == 46
    &&& tb[j] == 46
    &&& forall|k: int| 0 <= k < tb.len() && tb[k] == 46 ==> k == i || k == j
}

/// The token splits into exactly three dot-separated segments.
pub open spec fn two_dots(tb: Seq<u8>) -> bool {
    exists|i: int, j: int| well_split(tb, i, j)
}

/// The positions of the two dots.
pub open spec fn split_of(tb: Seq<u8>) -> (int, int) {
    choose|ij: (int, int)| well_split(tb, ij.0, ij.1)
}

pub proof fn lemma_split_unique(tb: Seq<u8>, i: int, j: int)
    requires
        well_split(tb, i, j),
    ensures
        split_of(tb) == (i, j),
{
    assert(well_split(tb, split_of(tb).0, split_of(tb).1)) by {
        assert(well_split(tb, ((i, j)).0, ((i, j)).1));
    }
    let a = split_of(tb).0;
    let b = split_of(tb).1;
    assert(a == i || a == j);
    assert(b == i || b == j);
    assert(i == a || i == b);
    assert(j == a || j == b);
}

/// The header segment of a well-split token.
pub open spec fn header_seg(tb: Seq<u8>) -> Seq<u8> {
    tb.subrange(0, split_of(tb).0)
}

/// The payload segment of a well-split token.
pub open spec fn payload_seg(tb: Seq<u8>) -> Seq<u8> {
    tb.subrange(split_of(tb).0 + 1, split_of(tb).1)
}

/// The signature segment of a well-split token.
pub open spec fn sig_seg(tb: Seq<u8>) -> Seq<u8> {
    tb.subrange(split_of(tb).1 + 1, tb.len() as int)
}

/// The signing input of a well-split token: everything before the second dot.
pub open spec fn msg_seg(tb: Seq<u8>) -> Seq<u8> {
    tb.subrange(0, split_of(tb).1)
}

/// The header is accepted: it decodes to a JSON object whose `alg` member is
/// the string `HS256`.
pub open spec fn spec_header_ok(tb: Seq<u8>) -> bool {
    match b64url_decoded(header_seg(tb)) {
        Option::Some(hb) => match sp_document(hb) {
            Option::Some(SpecValue::Dict(hm)) => spec_lookup(hm, "alg"@) == Some(
                SpecValue::Str("HS256"@),
            ),
            _ => false,
        },
        Option::None => false,
    }
}

/// The decoded claims of a well-split token, if its payload is a JSON
/// object.
pub open spec fn spec_payload_claims(tb: Seq<u8>) -> Option<Seq<(Seq<char>, SpecValue)>> {
    match b64url_decoded(payload_seg(tb)) {
        Option::Some(pb) => match sp_document(pb) {
            Option::Some(SpecValue::Dict(m)) => Some(m),
            _ => None,
        },
        Option::None => None,
    }
}

/// The token has three segments, an accepted header, and an object payload.
pub open spec fn spec_structure_ok(tb: Seq<u8>) -> bool {
    &&& two_dots(tb)
    &&& spec_header_ok(tb)
    &&& spec_payload_claims(tb) is Some
}

/// The signature segment is the canonical base64url encoding of the
/// HMAC-SHA256 tag of the signing input under `secret`.
pub open spec fn spec_sig_ok(tb: Seq<u8>, secret: Seq<u8>) -> bool {
    sig_seg(tb) == b64url_of(hmac_sha256(msg_seg(tb), secret))
}

/// Every claim named by the policy is present.
pub open spec fn spec_required_ok(
    claims: Seq<(Seq<char>, SpecValue)>,
    required: Seq<Seq<char>>,
) -> bool {
    forall|k: int| 0 <= k < required.len() ==> spec_lookup(claims, #[trigger] required[k]) is Some
}

/// If an expiry claim is present it is an integer no earlier than
/// `now - leeway`.
pub open spec fn spec_exp_ok(claims: Seq<(Seq<char>, SpecValue)>, leeway: int, now: int) -> bool {
    match spec_lookup(claims, "exp"@) {
        Option::None => true,
        Option::Some(v) => v matches SpecValue::Int(t) && t >= now - leeway,
    }
}

/// If a not-before claim is present it is an integer no later than
/// `now + leeway`.
pub open spec fn spec_nbf_ok(claims: Seq<(Seq<char>, SpecValue)>, leeway: int, now: int) -> bool {
    match spec_lookup(claims, "nbf"@) {
        Option::None => true,
        Option::Some(v) => v matches SpecValue::Int(t) && t <= now + leeway,
    }
}

/// The validation policy accepts the claims at instant `now`.
pub open spec fn spec_policy_ok(
    claims: Seq<(Seq<char>, SpecValue)>,
    required: Seq<Seq<char>>,
    leeway: int,
    now: int,
) -> bool {
    &&& spec_required_ok(claims, required)
    &&& spec_exp_ok(claims, leeway, now)
    &&& spec_nbf_ok(claims, leeway, now)
}

/// Which policy failure is reported, checked in order: required claims,
/// expiry, not-before.
pub open spec fn spec_policy_error(
    claims: Seq<(Seq<char>, SpecValue)>,
    required: Seq<Seq<char>>,
    leeway: int,
    now: int,
) -> DecodeError {
    if !spec_required_ok(claims, required) {
        DecodeError::MissingRequiredClaim
    } else if !spec_exp_ok(claims, leeway, now) {
        DecodeError::Expired
    } else {
        DecodeError::ImmatureToken
    }
}

/// One verification key accepts the token: structure, signature and policy
/// all pass.
pub open spec fn spec_attempt_ok(
    tb: Seq<u8>,
    secret: Seq<u8>,
    required: Seq<Seq<char>>,
    leeway: int,
    now: int,
) -> bool {
    &&& spec_structure_ok(tb)
    &&& spec_sig_ok(tb, secret)
    &&& spec_policy_ok(spec_payload_claims(tb)->Some_0, required, leeway, now)
}

/// The failure one verification key reports for the token.
pub open spec fn spec_attempt_error(
    tb: Seq<u8>,
    secret: Seq<u8>,
    required: Seq<Seq<char>>,
    leeway: int,
    now: int,
) -> DecodeError {
    if !spec_structure_ok(tb) {
        DecodeError::InvalidToken
    } else if !spec_sig_ok(tb, secret) {
        DecodeError::InvalidSignature
    } else {
        spec_policy_error(spec_payload_claims(tb)->Some_0, required, leeway, now)
    }
}

/// Everything `decode_at` promises, as one predicate over the decode
/// instant: success exactly when some key accepts the token at that instant,
/// the container carrying exactly the parsed payload claims, and every
/// failure the last attempted key's error (or the not-valid-token sentinel
/// when no key is configured).
pub open spec fn spec_decode_outcome(
    tb: Seq<u8>,
    secrets: Seq<Seq<u8>>,
    required: Seq<Seq<char>>,
    leeway: int,
    now: int,
    r: Result<TokenData, DecodeError>,
) -> bool {
    &&& (r is Ok <==> exists|i: int|
        0 <= i < secrets.len() && spec_attempt_ok(tb, #[trigger] secrets[i], required, leeway, now))
    &&& (r matches Ok(td) ==> td@ == spec_payload_claims(tb)->Some_0
        && crate::value::spec_wire(SpecValue::Dict(td@)))
    &&& (r matches Err(e) ==> e == (if secrets.len() == 0 {
        DecodeError::InvalidToken
    } else {
        spec_attempt_error(tb, secrets.last(), required, leeway, now)
    }))
}

/// Acceptance that no clock reading can affect: the token is well-formed,
/// some configured key verifies its signature, every required claim is
/// present, and the payload carries no temporal claim.
pub open spec fn spec_timeless_accept(
    tb: Seq<u8>,
    secrets: Seq<Seq<u8>>,
    required: Seq<Seq<char>>,
) -> bool {
    &&& spec_structure_ok(tb)
    &&& exists|i: int| 0 <= i < secrets.len() && spec_sig_ok(tb, #[trigger] secrets[i])
    &&& spec_required_ok(spec_payload_claims(tb)->Some_0, required)
    &&& spec_lookup(spec_payload_claims(tb)->Some_0, "exp"@) is None
    &&& spec_lookup(spec_payload_claims(tb)->Some_0, "nbf"@) is None
}

/// Copy the byte range `[from, to)`.
fn sub_bytes(b: &Vec<u8>, from: usize, to: usize) -> (r: Vec<u8>)
    requires
        from <= to <= b@.len(),
    ensures
        r@ == b@.subrange(from as int, to as int),
{
    let mut out: Vec<u8> = Vec::new();
    let mut i: usize = from;
    while i < to
        invariant
            from <= i <= to <= b@.len(),
            out@.len() == i - from,
            forall|k: int| 0 <= k < out@.len() ==> out@[k] == b@[from + k],
        decreases to - i,
    {
        out.push(b[i]);
        i = i + 1;
    }
    proof {
        assert(out@ =~= b@.subrange(from as int, to as int));
    }
    out
}

/// The ascending positions of every dot byte.
fn dot_positions(b: &Vec<u8>) -> (r: Vec<usize>)
    ensures
        forall|t: int|
            0 <= t < r@.len() ==> (#[trigger] r@[t]) < b@.len() && b@[r@[t] as int] == 46,
        forall|k: int|
            0 <= k < b@.len() && b@[k] == 46 ==> exists|t: int|
                0 <= t < r@.len() && (#[trigger] r@[t]) as int == k,
        forall|t1: int, t2: int| 0 <= t1 < t2 < r@.len() ==> r@[t1] < r@[t2],
{
    let mut out: Vec<usize> = Vec::new();
    let mut p: usize = 0;
    while p < b.len()
        invariant
            p <= b@.len(),
            forall|t: int|
                0 <= t < out@.len() ==> (#[trigger] out@[t]) < p && b@[out@[t] as int] == 46,
            forall|k: int|
                0 <= k < p && b@[k] == 46 ==> exists|t: int|
                    0 <= t < out@.len() && (#[trigger] out@[t]) as int == k,
            forall|t1: int, t2: int| 0 <= t1 < t2 < out@.len() ==> out@[t1] < out@[t2],
        decreases b@.len() - p,
    {
        if b[p] == 46 {
            let ghost old_out = out@;
            out.push(p);
            proof {
                assert forall|k: int|
                    0 <= k < p as int + 1 && b@[k] == 46 implies exists|t: int|
                        0 <= t < out@.len() && (#[trigger] out@[t]) as int == k by {
                    if k < p as int {
                        let t = choose|t: int|
                            0 <= t < old_out.len() && (#[trigger] old_out[t]) as int == k;
                        assert(out@[t] == old_out[t]);
                    } else {
                        assert(out@[out@.len() - 1] == p);
                    }
                }
                assert forall|t1: int, t2: int|
                    0 <= t1 < t2 < out@.len() implies out@[t1] < out@[t2] by {
                    if t2 == out@.len() - 1 {
                        assert(out@[t1] == old_out[t1]);
                        assert(old_out[t1] < p);
                    } else {
                        assert(out@[t1] == old_out[t1]);
                        assert(out@[t2] == old_out[t2]);
                    }
                }
            }
        } else {
            proof {
                assert forall|k: int|
                    0 <= k < p as int + 1 && b@[k] == 46 implies exists|t: int|
                        0 <= t < out@.len() && (#[trigger] out@[t]) as int == k by {
                    assert(k < p as int || b@[k] != 46);
                }
            }
        }
        p = p + 1;
    }
    out
}

/// The token engine: a signing key, an ordered list of verification keys,
/// and a fixed validation policy. Immutable once built.
pub struct JWT {
    signing_secret: Vec<u8>,
    secrets: Vec<Vec<u8>>,
    required_claims: Vec<String>,
    leeway: u64,
}

impl JWT {
    /// The signing secret.
    pub closed spec fn spec_signing_secret(&self) -> Seq<u8> {
        self.signing_secret@
    }

    /// The ordered verification secrets.
    pub closed spec fn spec_secrets(&self) -> Seq<Seq<u8>> {
        bytes_view(self.secrets@)
    }

    /// The names the policy requires.
    pub closed spec fn spec_required(&self) -> Seq<Seq<char>> {
        strs_view(self.required_claims@)
    }

    /// The temporal skew the policy allows, in seconds.
    pub closed spec fn spec_leeway(&self) -> int {
        self.leeway as int
    }

    /// Build an engine whose signing key and single verification key both
    /// derive from `secret`, requiring exactly the named claims (none if
    /// absent), with no temporal skew.
    pub fn new(secret: &str, required_spec_claims: Option<Vec<String>>) -> (r: JWT)
        ensures
            r.spec_signing_secret() == secret.spec_bytes(),
            r.spec_secrets() =~= seq![secret.spec_bytes()],
            match required_spec_claims {
                Some(req) => r.spec_required() =~= strs_view(req@),
                None => r.spec_required() =~= Seq::<Seq<char>>::empty(),
            },
            r.spec_leeway() == 0,
    {
        let required = match required_spec_claims {
            Some(req) => req,
            None => Vec::new(),
        };
        let mut secrets: Vec<Vec<u8>> = Vec::new();
        secrets.push(secret.as_bytes_vec());
        JWT { signing_secret: secret.as_bytes_vec(), secrets, required_claims: required, leeway: 0 }
    }

    /// Append one more verification key, for rotation: tokens signed under
    /// it stay accepted. Everything else is unchanged.
    pub fn with_added_verification_secret(self, secret: &str) -> (r: JWT)
        ensures
            r.spec_signing_secret() == self.spec_signing_secret(),
            r.spec_secrets() =~= self.spec_secrets().push(secret.spec_bytes()),
            r.spec_required() =~= self.spec_required(),
            r.spec_leeway() == self.spec_leeway(),
    {
        let mut r = self;
        r.secrets.push(secret.as_bytes_vec());
        r
    }

    /// Set the temporal skew the policy allows, in seconds.
    pub fn with_leeway(self, leeway: u64) -> (r: JWT)
        ensures
            r.spec_signing_secret() == self.spec_signing_secret(),
            r.spec_secrets() =~= self.spec_secrets(),
            r.spec_required() =~= self.spec_required(),
            r.spec_leeway() == leeway as int,
    {
        let mut r = self;
        r.leeway = leeway;
        r
    }

    /// Serialize, convert and sign the claims at instant `now`, producing the
    /// compact three-segment token.
    pub fn encode_at(&self, claims: &Vec<(String, Value)>, now: i64) -> (r: Result<
        String,
        EncodeError,
    >)
        ensures
            spec_encode_outcome(
                entries_view(claims@),
                self.spec_signing_secret(),
                now as int,
                r,
            ),
            r is Ok <==> encodable(SpecValue::Dict(entries_view(claims@)), now as int),
    {
        let ghost ev = entries_view(claims@);
        let payload = match crate::json::to_json_bytes(claims, now) {
            Ok(p) => p,
            Err(e) => {
                return Err(e);
            },
        };
        let hv = header_value();
        let mut hb: Vec<u8> = Vec::new();
        crate::json::write_value(&hv, &mut hb);
        proof {
            assert(hb@ =~= spec_header_bytes());
        }
        let mut msg = crate::ext::b64url_encode(hb.as_slice());
        msg.push(46);
        let mut p64 = crate::ext::b64url_encode(payload.as_slice());
        msg.append(&mut p64);
        proof {
            assert(msg@ =~= spec_msg_bytes(ev, now as int));
        }
        let sig = match crate::ext::hs256_sign(msg.as_slice(), self.signing_secret.as_slice()) {
            Some(s) => s,
            None => {
                proof {
                    assert(false);
                }
                vstd::pervasive::unreached()
            },
        };
        let mut tok = msg;
        tok.push(46);
        let mut sigv = sig;
        tok.append(&mut sigv);
        proof {
            assert(tok@ =~= spec_token_bytes(ev, now as int, self.spec_signing_secret()));
            assert(spec_header_bytes().len() > 0) by {
                assert(spec_header()->Dict_0.len() > 0);
            }
            assert(spec_payload_bytes(ev, now as int).len() > 0) by {
                assert(wire_of(SpecValue::Dict(ev), now as int) is Dict);
            }
        }
        Ok(crate::ext::ascii_to_string(tok.as_slice()))
    }

    /// Serialize, convert and sign the claims at the current instant: the
    /// whole `encode_at` contract holds for some non-negative clock reading.
    pub fn encode(&self, claims: &Vec<(String, Value)>) -> (r: Result<String, EncodeError>)
        ensures
            exists|now: int|
                0 <= now && #[trigger] spec_encode_outcome(
                    entries_view(claims@),
                    self.spec_signing_secret(),
                    now,
                    r,
                ),
    {
        let now = crate::ext::now_secs();
        let r = self.encode_at(claims, now);
        proof {
            assert(spec_encode_outcome(
                entries_view(claims@),
                self.spec_signing_secret(),
                now as int,
                r,
            ));
        }
        r
    }

    /// Verify the token against each verification key in list order at
    /// instant `now`, returning the claims accepted by the first key that
    /// passes both signature check and validation policy, or the failure of
    /// the last attempted key.
    #[verifier::rlimit(60)]
    pub fn decode_at(&self, token: &str, now: i64) -> (r: Result<TokenData, DecodeError>)
        ensures
            (r is Ok <==> exists|i: int|
                0 <= i < self.spec_secrets().len() && spec_attempt_ok(
                    token.spec_bytes(),
                    #[trigger] self.spec_secrets()[i],
                    self.spec_required(),
                    self.spec_leeway(),
                    now as int,
                )),
            r matches Ok(td) ==> td@ == spec_payload_claims(token.spec_bytes())->Some_0
                && crate::value::spec_wire(SpecValue::Dict(td@)),
            r matches Err(e) ==> e == (if self.spec_secrets().len() == 0 {
                DecodeError::InvalidToken
            } else {
                spec_attempt_error(
                    token.spec_bytes(),
                    self.spec_secrets().last(),
                    self.spec_required(),
                    self.spec_leeway(),
                    now as int,
                )
            }),
    {
        let ghost tb = token.spec_bytes();
        let bytes = token.as_bytes_vec();
        let dots = dot_positions(&bytes);
        if dots.len() != 2 {
            proof {
                assert(!two_dots(tb)) by {
                    if two_dots(tb) {
                        let (i, j) = choose|i: int, j: int| well_split(tb, i, j);
                        let ti = choose|t: int|
                            0 <= t < dots@.len() && (#[trigger] dots@[t]) as int == i;
                        let tj = choose|t: int|
                            0 <= t < dots@.len() && (#[trigger] dots@[t]) as int == j;
                        assert(ti != tj);
                        if dots@.len() > 2 {
                            assert(dots@[0] < dots@[1] && dots@[1] < dots@[2]);
                            assert(dots@[0] as int == i || dots@[0] as int == j);
                            assert(dots@[1] as int == i || dots@[1] as int == j);
                            assert(dots@[2] as int == i || dots@[2] as int == j);
                            assert(false);
                        }
                    }
                }
            }
            proof {
                assert(!spec_structure_ok(tb));
                assert(spec_attempt_error(
                    tb,
                    self.spec_secrets().last(),
                    self.spec_required(),
                    self.spec_leeway(),
                    now as int,
                ) == DecodeError::InvalidToken);
            }
            return Err(DecodeError::InvalidToken);
        }
        let d1 = dots[0];
        let d2 = dots[1];
        proof {
            assert(well_split(tb, d1 as int, d2 as int)) by {
                assert(dots@[0] < dots@[1]);
                assert forall|k: int| 0 <= k < tb.len() && tb[k] == 46 implies k == d1 as int || k
                    == d2 as int by {
                    let t = choose|t: int|
                        0 <= t < dots@.len() && (#[trigger] dots@[t]) as int == k;
                    assert(t == 0 || t == 1);
                }
            }
            lemma_split_unique(tb, d1 as int, d2 as int);
        }
        let blen = bytes.len();
        proof {
            assert(d2 < blen);
        }
        let header_b = sub_bytes(&bytes, 0, d1);
        let payload_b = sub_bytes(&bytes, d1 + 1, d2);
        let msg = sub_bytes(&bytes, 0, d2);
        let sig = sub_bytes(&bytes, d2 + 1, blen);
        if !header_ok_check(&header_b) {
            proof {
                assert(header_b@ == header_seg(tb));
                assert(!spec_header_ok(tb));
                assert(!spec_structure_ok(tb));
            }
            return Err(DecodeError::InvalidToken);
        }
        let claims_entries: Vec<(String, Value)> = match crate::ext::b64url_decode(
            payload_b.as_slice(),
        ) {
            Some(pb) => match crate::parse::parse_document(&pb) {
                Some(pv) => match pv {
                    Value::Dict(m) => m,
                    other => {
                        proof {
                            assert(spec_payload_claims(tb) is None) by {
                                assert(!(other@ is Dict));
                            }
                            assert(!spec_structure_ok(tb));
                        }
                        return Err(DecodeError::InvalidToken);
                    },
                },
                None => {
                    proof {
                        assert(spec_payload_claims(tb) is None);
                        assert(!spec_structure_ok(tb));
                    }
                    return Err(DecodeError::InvalidToken);
                },
            },
            None => {
                proof {
                    assert(spec_payload_claims(tb) is None);
                    assert(!spec_structure_ok(tb));
                }
                return Err(DecodeError::InvalidToken);
            },
        };
        proof {
            assert(spec_payload_claims(tb) == Some(entries_view(claims_entries@)));
            crate::parse::lemma_sp_document_wire(b64url_decoded(payload_seg(tb))->Some_0);
            assert(crate::value::spec_wire(SpecValue::Dict(entries_view(claims_entries@))));
        }
        let policy_err = check_policy(&claims_entries, &self.required_claims, self.leeway, now);
        let nkeys = self.secrets.len();
        let mut k: usize = 0;
        let mut success = false;
        let mut last_err = DecodeError::InvalidToken;
        while k < nkeys
            invariant
                nkeys == self.spec_secrets().len(),
                k <= nkeys,
                spec_structure_ok(tb),
                spec_payload_claims(tb) == Some(entries_view(claims_entries@)),
                crate::value::spec_wire(SpecValue::Dict(entries_view(claims_entries@))),
                msg@ == msg_seg(tb),
                sig@ == sig_seg(tb),
                match policy_err {
                    Option::None => spec_policy_ok(
                        entries_view(claims_entries@),
                        self.spec_required(),
                        self.spec_leeway(),
                        now as int,
                    ),
                    Option::Some(e) => !spec_policy_ok(
                        entries_view(claims_entries@),
                        self.spec_required(),
                        self.spec_leeway(),
                        now as int,
                    ) && e == spec_policy_error(
                        entries_view(claims_entries@),
                        self.spec_required(),
                        self.spec_leeway(),
                        now as int,
                    ),
                },
                success == exists|t: int|
                    0 <= t < k as int && spec_attempt_ok(
                        tb,
                        #[trigger] self.spec_secrets()[t],
                        self.spec_required(),
                        self.spec_leeway(),
                        now as int,
                    ),
                k == 0 ==> last_err == DecodeError::InvalidToken,
                !success && k > 0 ==> last_err == spec_attempt_error(
                    tb,
                    self.spec_secrets()[k as int - 1],
                    self.spec_required(),
                    self.spec_leeway(),
                    now as int,
                ),
            decreases nkeys - k,
        {
            proof {
                assert(self.spec_secrets()[k as int] == self.secrets@[k as int]@);
            }
            let ok = crate::ext::hs256_verify(
                sig.as_slice(),
                msg.as_slice(),
                self.secrets[k].as_slice(),
            );
            let ghost old_success = success;
            if ok {
                match policy_err {
                    Option::None => {
                        success = true;
                    },
                    Option::Some(e) => {
                        if !success {
                            last_err = e;
                        }
                    },
                }
            } else {
                if !success {
                    last_err = DecodeError::InvalidSignature;
                }
            }
            proof {
                let sk = self.spec_secrets()[k as int];
                if success && !old_success {
                    assert(spec_attempt_ok(
                        tb,
                        sk,
                        self.spec_required(),
                        self.spec_leeway(),
                        now as int,
                    ));
                }
            }
            k = k + 1;
        }
        if success {
            return Ok(TokenData { claims: claims_entries });
        }
        proof {
            if self.spec_secrets().len() > 0 {
                assert(last_err == spec_attempt_error(
                    tb,
                    self.spec_secrets().last(),
                    self.spec_required(),
                    self.spec_leeway(),
                    now as int,
                ));
            }
        }
        Err(last_err)
    }

    /// Verify the token at the current instant: the whole `decode_at`
    /// contract holds for some non-negative clock reading, and a token whose
    /// acceptance no clock can affect is owed success.
    pub fn decode(&self, token: &str) -> (r: Result<TokenData, DecodeError>)
        ensures
            exists|now: int|
                0 <= now && #[trigger] spec_decode_outcome(
                    token.spec_bytes(),
                    self.spec_secrets(),
                    self.spec_required(),
                    self.spec_leeway(),
                    now,
                    r,
                ),
            spec_timeless_accept(token.spec_bytes(), self.spec_secrets(), self.spec_required())
                ==> r is Ok,
            r matches Ok(td) ==> td@ == spec_payload_claims(token.spec_bytes())->Some_0
                && crate::value::spec_wire(SpecValue::Dict(td@)),
    {
        let now = crate::ext::now_secs();
        let r = self.decode_at(token, now);
        proof {
            let tb = token.spec_bytes();
            assert(spec_decode_outcome(
                tb,
                self.spec_secrets(),
                self.spec_required(),
                self.spec_leeway(),
                now as int,
                r,
            ));
            if spec_timeless_accept(tb, self.spec_secrets(), self.spec_required()) {
                let i = choose|i: int|
                    0 <= i < self.spec_secrets().len() && spec_sig_ok(
                        tb,
                        #[trigger] self.spec_secrets()[i],
                    );
                assert(spec_attempt_ok(
                    tb,
                    self.spec_secrets()[i],
                    self.spec_required(),
                    self.spec_leeway(),
                    now as int,
                ));
            }
        }
        r
    }
}

/// The fixed header as a claim value.
fn header_value() -> (r: Value)
    ensures
        r@ == spec_header(),
        crate::value::spec_wire(r@),
{
    let mut entries: Vec<(String, Value)> = Vec::new();
    entries.push(("alg".to_owned(), Value::String("HS256".to_owned())));
    entries.push(("typ".to_owned(), Value::String("JWT".to_owned())));
    let v = Value::Dict(entries);
    proof {
        reveal_strlit("alg");
        reveal_strlit("typ");
        crate::value::lemma_dict_view(&v);
        assert(v@->Dict_0 =~= spec_header()->Dict_0);
        assert("alg"@ != "typ"@) by {
            assert("alg"@[0] == 'a');
            assert("typ"@[0] == 't');
        }
        assert(crate::value::unique_keys(spec_header()->Dict_0));
        assert forall|t: int| 0 <= t < spec_header()->Dict_0.len() implies crate::value::spec_wire(
            #[trigger] spec_header()->Dict_0[t].1,
        ) by {
            if t == 0 {
                assert(spec_header()->Dict_0[0].1 == SpecValue::Str("HS256"@));
            } else {
                assert(spec_header()->Dict_0[1].1 == SpecValue::Str("JWT"@));
            }
        }
    }
    v
}

/// Whether the header bytes decode to an accepted header.
fn header_ok_check(header_b: &Vec<u8>) -> (r: bool)
    ensures
        r == match b64url_decoded(header_b@) {
            Option::Some(hb) => match sp_document(hb) {
                Option::Some(SpecValue::Dict(hm)) => spec_lookup(hm, "alg"@) == Some(
                    SpecValue::Str("HS256"@),
                ),
                _ => false,
            },
            Option::None => false,
        },
{
    match crate::ext::b64url_decode(header_b.as_slice()) {
        Some(hb) => match crate::parse::parse_document(&hb) {
            Some(hv) => match &hv {
                Value::Dict(hm) => {
                    proof {
                        crate::value::lemma_dict_view(&hv);
                    }
                    match find_value(hm, "alg") {
                        Some(av) => match av {
                            Value::String(s) => {
                                let hs: String = "HS256".to_owned();
                                *s == hs
                            },
                            _ => false,
                        },
                        None => false,
                    }
                },
                _ => false,
            },
            None => false,
        },
        None => false,
    }
}

/// Evaluate the validation policy on decoded claims.
fn check_policy(
    entries: &Vec<(String, Value)>,
    required: &Vec<String>,
    leeway: u64,
    now: i64,
) -> (r: Option<DecodeError>)
    ensures
        match r {
            Option::None => spec_policy_ok(
                entries_view(entries@),
                strs_view(required@),
                leeway as int,
                now as int,
            ),
            Option::Some(e) => !spec_policy_ok(
                entries_view(entries@),
                strs_view(required@),
                leeway as int,
                now as int,
            ) && e == spec_policy_error(
                entries_view(entries@),
                strs_view(required@),
                leeway as int,
                now as int,
            ),
        },
{
    let ghost ev = entries_view(entries@);
    let ghost rv = strs_view(required@);
    let mut i: usize = 0;
    while i < required.len()
        invariant
            i <= required@.len(),
            ev == entries_view(entries@),
            rv == strs_view(required@),
            forall|t: int| 0 <= t < i as int ==> spec_lookup(ev, #[trigger] rv[t]) is Some,
        decreases required@.len() - i,
    {
        proof {
            assert(rv[i as int] == required@[i as int]@);
        }
        match find_value(entries, required[i].as_str()) {
            Some(_) => {},
            None => {
                proof {
                    assert(!spec_required_ok(ev, rv));
                }
                return Some(DecodeError::MissingRequiredClaim);
            },
        }
        i = i + 1;
    }
    match find_value(entries, "exp") {
        Some(v) => match v {
            Value::Int(t) => {
                if (*t as i128) < (now as i128) - (leeway as i128) {
                    return Some(DecodeError::Expired);
                }
            },
            _ => {
                return Some(DecodeError::Expired);
            },
        },
        None => {},
    }
    match find_value(entries, "nbf") {
        Some(v) => match v {
            Value::Int(t) => {
                if (*t as i128) > (now as i128) + (leeway as i128) {
                    return Some(DecodeError::ImmatureToken);
                }
            },
            _ => {
                return Some(DecodeError::ImmatureToken);
            },
        },
        None => {},
    }
    None
}

} // verus!
