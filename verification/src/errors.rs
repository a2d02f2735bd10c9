use vstd::prelude::*;

verus! {

/// Why an encode attempt failed.
#[derive(PartialEq, Eq, Structural, Clone, Copy, Debug)]
pub enum EncodeError {
    /// The claims cannot be represented on the wire: a duplicate claim name,
    /// or a duration whose absolute instant overflows the wire's signed
    /// 64-bit seconds.
    InvalidClaims,
}

impl EncodeError {
    /// Human-readable description.
    pub fn message(&self) -> (r: String)
        ensures
            r@ == "invalid claims"@,
    {
        match self {
            EncodeError::InvalidClaims => "invalid claims".to_owned(),
        }
    }
}

/// Why the last attempted verification key rejected a token.
#[derive(PartialEq, Eq, Structural, Clone, Copy, Debug)]
pub enum DecodeError {
    /// The token is not three dot-separated base64url segments carrying a
    /// well-formed header and a JSON object payload.
    InvalidToken,
    /// The signature segment does not match the key.
    InvalidSignature,
    /// A claim named by the validation policy is absent.
    MissingRequiredClaim,
    /// The expiry claim lies in the past.
    Expired,
    /// The not-before claim lies in the future.
    ImmatureToken,
}

impl DecodeError {
    /// Human-readable description.
    pub fn message(&self) -> (r: String)
        ensures
            self is InvalidToken ==> r@ == "not valid token"@,
            self is InvalidSignature ==> r@ == "invalid signature"@,
            self is MissingRequiredClaim ==> r@ == "missing required claim"@,
            self is Expired ==> r@ == "token expired"@,
            self is ImmatureToken ==> r@ == "token not yet valid"@,
    {
        match self {
            DecodeError::InvalidToken => "not valid token".to_owned(),
            DecodeError::InvalidSignature => "invalid signature".to_owned(),
            DecodeError::MissingRequiredClaim => "missing required claim".to_owned(),
            DecodeError::Expired => "token expired".to_owned(),
            DecodeError::ImmatureToken => "token not yet valid".to_owned(),
        }
    }
}

} // verus!
