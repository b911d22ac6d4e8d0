//! The calls this library makes into other crates, each with what the
//! library takes for granted about it.
use vstd::prelude::*;

use crate::registry::{ArgBinding, ArgBindingView, TypeName, TypeNameView};
use tx3_resolver::Type;

verus! {

// ---------------------------------------------------------------------------
// Outside types carried through the library
// ---------------------------------------------------------------------------

#[verifier::external_type_specification]
#[verifier::external_body]
pub struct ExTirType(tx3_resolver::Type);

#[verifier::external_type_specification]
#[verifier::external_body]
pub struct ExAddressError(pallas::ledger::addresses::Error);

// ---------------------------------------------------------------------------
// std
// ---------------------------------------------------------------------------

/// `==` on string slices (`<str as PartialEq>::eq`): true exactly when both
/// hold the same characters.
#[verifier::external_body]
pub(crate) fn str_equals(a: &str, b: &str) -> (r: bool)
    ensures
        r == (a@ == b@),
{
    a == b
}

/// Whether `c` has the Unicode property White_Space.
pub open spec fn is_white_space(c: char) -> bool {
    let n = c as u32;
    ||| 9 <= n <= 13
    ||| n == 32
    ||| n == 0x85
    ||| n == 0xA0
    ||| n == 0x1680
    ||| 0x2000 <= n <= 0x200A
    ||| n == 0x2028
    ||| n == 0x2029
    ||| n == 0x202F
    ||| n == 0x205F
    ||| n == 0x3000
}

/// `s` without its leading white space.
pub open spec fn trim_start(s: Seq<char>) -> Seq<char>
    decreases s.len(),
{
    if s.len() > 0 && is_white_space(s[0]) {
        trim_start(s.drop_first())
    } else {
        s
    }
}

/// `s` without its trailing white space.
pub open spec fn trim_end(s: Seq<char>) -> Seq<char>
    decreases s.len(),
{
    if s.len() > 0 && is_white_space(s.last()) {
        trim_end(s.drop_last())
    } else {
        s
    }
}

/// `s` without its leading and trailing white space.
pub open spec fn trimmed(s: Seq<char>) -> Seq<char> {
    trim_end(trim_start(s))
}

/// `str::trim`: the slice of `s` without leading and trailing white space,
/// white space being the characters with the Unicode property White_Space.
#[verifier::external_body]
pub(crate) fn trim_str(s: &str) -> (r: &str)
    ensures
        r@ == trimmed(s@),
{
    s.trim()
}

// ---------------------------------------------------------------------------
// hex
// ---------------------------------------------------------------------------

/// The lower-case hexadecimal digit for `n < 16`.
pub open spec fn hex_digit(n: u8) -> char {
    if n < 10 {
        (48 + n) as char
    } else {
        (87 + n) as char
    }
}

/// Lower-case hexadecimal text of `bytes`: two digits per byte, high nibble
/// first.
pub open spec fn hex_lower(bytes: Seq<u8>) -> Seq<char>
    decreases bytes.len(),
{
    if bytes.len() == 0 {
        Seq::empty()
    } else {
        hex_lower(bytes.drop_last()) + seq![
            hex_digit(bytes.last() / 16),
            hex_digit(bytes.last() % 16),
        ]
    }
}

/// `hex::encode`: the lower-case hexadecimal text of `bytes`, two digits per
/// byte, high nibble first.
#[verifier::external_body]
pub(crate) fn hex_encode(bytes: &[u8]) -> (r: String)
    ensures
        r@ == hex_lower(bytes@),
{
    hex::encode(bytes)
}

// ---------------------------------------------------------------------------
// pallas
// ---------------------------------------------------------------------------

/// The bech32 text of the Cardano address encoded by `bytes`, or `None` when
/// the bytes are not an address that has a bech32 text.
pub uninterp spec fn bech32_address(bytes: Seq<u8>) -> Option<Seq<char>>;

/// `Address::from_bytes` followed by `Address::to_bech32`: decodes the address
/// bytes and writes the address as bech32 text. The result depends on the
/// bytes alone; what that text is, and which byte strings are rejected, is
/// left to the name `bech32_address`.
#[verifier::external_body]
pub(crate) fn address_to_bech32(bytes: &[u8]) -> (r: Result<String, pallas::ledger::addresses::Error>)
    ensures
        r is Ok <==> bech32_address(bytes@) is Some,
        r matches Ok(s) ==> bech32_address(bytes@) == Some(s@),
{
    pallas::ledger::addresses::Address::from_bytes(bytes).and_then(|a| a.to_bech32())
}

// ---------------------------------------------------------------------------
// tx3 argument decoding
// ---------------------------------------------------------------------------

/// The argument that the JSON text `json` decodes to for a parameter of type
/// `ty`, as far as the library reads arguments, or `None` when `json` is not
/// JSON or does not decode for that type.
pub uninterp spec fn json_argument(json: Seq<char>, ty: TypeNameView) -> Option<ArgBindingView>;

/// The toolchain's type for a type name (a one-to-one conversion).
#[verifier::external_body]
fn tir_type(t: &TypeName) -> Type {
    match t {
        TypeName::Undefined => Type::Undefined,
        TypeName::Unit => Type::Unit,
        TypeName::Int => Type::Int,
        TypeName::Bool => Type::Bool,
        TypeName::Bytes => Type::Bytes,
        TypeName::Address => Type::Address,
        TypeName::Utxo => Type::Utxo,
        TypeName::UtxoRef => Type::UtxoRef,
        TypeName::AnyAsset => Type::AnyAsset,
        TypeName::List => Type::List,
        TypeName::Mapping => Type::Map,
        TypeName::Custom(s) => Type::Custom(s.clone()),
    }
}

/// `serde_json::from_str` followed by `tx3_resolver::interop::from_json`:
/// reads the JSON text and decodes it as an argument of type `ty`. The result
/// depends on the text and the type alone; which argument comes out is left to
/// the name `json_argument`. The error is the outside error's message, which
/// nothing states.
#[verifier::external_body]
pub(crate) fn argument_from_json(json: &str, ty: &TypeName) -> (r: Result<ArgBinding, String>)
    ensures
        r is Ok <==> json_argument(json@, ty@) is Some,
        r matches Ok(a) ==> json_argument(json@, ty@) == Some(a@),
{
    let value: serde_json::Value = serde_json::from_str(json).map_err(|e| e.to_string())?;
    let arg = tx3_resolver::interop::from_json(value, &tir_type(ty)).map_err(|e| e.to_string())?;
    Ok(match arg {
        tx3_tir::reduce::ArgValue::Address(b) => ArgBinding::Address(b),
        tx3_tir::reduce::ArgValue::Bytes(b) => ArgBinding::Bytes(b),
        _ => ArgBinding::Other,
    })
}


} // verus!
