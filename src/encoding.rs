use vstd::prelude::*;

use cstr_core::CString;
use vstd::string::StringSliceAdditionalSpecFns;

use crate::kind::RclrsError;

verus! {

/// `cstr_core::CString`, carried through as an opaque value.
#[verifier::external_type_specification]
#[verifier::external_body]
pub struct ExCString(CString);

/// The byte position of the first nul in `bytes` is `p`.
pub open spec fn first_nul(bytes: Seq<u8>, p: int) -> bool {
    &&& 0 <= p < bytes.len()
    &&& bytes[p] == 0
    &&& forall|j: int| 0 <= j < p ==> bytes[j] != 0
}

/// Relies on `cstr_core::CString::new`: it takes the UTF-8 bytes of `name`
/// and fails exactly when they hold a nul, with the position that `memchr`
/// finds, the first.
#[verifier::external_body]
fn c_string_new(name: &str) -> (r: Result<CString, usize>)
    ensures
        match r {
            Ok(_) => !name.spec_bytes().contains(0u8),
            Err(p) => first_nul(name.spec_bytes(), p as int),
        },
{
    match CString::new(name) {
        Ok(c) => Ok(c),
        Err(e) => Err(e.nul_position()),
    }
}

/// Encode a name (a topic, a service) for the middleware. A name that holds
/// a nul cannot be represented and is refused before any primitive is made.
pub fn encode_name(name: &str) -> (r: Result<CString, RclrsError>)
    ensures
        r is Ok <==> !name.spec_bytes().contains(0u8),
        match r {
            Ok(_) => true,
            Err(RclrsError::StringContainsNul { position, name: n }) => first_nul(name.spec_bytes(), position as int) && n@ == name@,
            Err(_) => false,
        },
{
    match c_string_new(name) {
        Ok(c) => Ok(c),
        Err(position) => Err(RclrsError::StringContainsNul { position, name: name.to_owned() }),
    }
}

} // verus!
