use vstd::prelude::*;

use vstd::utf8::{decode_utf8, valid_utf8};

use hyper::header::{HeaderMap, HeaderValue};

use crate::ip::{IpAddress, SocketAddress};
use crate::resolve::{pick_best_ip_from_options, resolve, Source};

verus! {

#[verifier::external_type_specification]
#[verifier::external_body]
#[verifier::reject_recursive_types(T)]
pub struct ExHeaderMap<T>(HeaderMap<T>);

#[verifier::external_type_specification]
#[verifier::external_body]
pub struct ExHeaderValue(HeaderValue);

/// The first value of each field of a header map, as bytes, keyed by the
/// field's lower-case name.
pub uninterp spec fn header_fields(h: HeaderMap) -> Map<Seq<char>, Seq<u8>>;

/// The text of a field, where it is present and its bytes are valid UTF-8.
pub open spec fn field_text(fields: Map<Seq<char>, Seq<u8>>, name: Seq<char>) -> Option<
    Seq<char>,
> {
    if fields.contains_key(name) && valid_utf8(fields[name]) {
        Some(decode_utf8(fields[name]))
    } else {
        None
    }
}

pub open spec fn is_lower_case_name(name: Seq<char>) -> bool {
    forall|i: int| 0 <= i < name.len() ==> !('A' <= #[trigger] name[i] && name[i] <= 'Z')
}

/// A field whose value is not valid UTF-8 reads as a field that is absent.
pub proof fn lemma_invalid_utf8_reads_as_absent(fields: Map<Seq<char>, Seq<u8>>, name: Seq<char>)
    requires
        fields.contains_key(name),
        !valid_utf8(fields[name]),
    ensures
        field_text(fields, name) == field_text(fields.remove(name), name),
        field_text(fields, name) is None,
{
}

/// Relies on `HeaderMap::get`, which looks a field up by name, ignoring
/// case, and returns its first value; `HeaderValue::as_bytes` hands that
/// value out as bytes.
#[verifier::external_body]
fn first_header_value(headers: &HeaderMap, name: &str) -> (r: Option<Vec<u8>>)
    requires
        is_lower_case_name(name@),
    ensures
        r is Some <==> header_fields(*headers).contains_key(name@),
        r matches Some(b) ==> b@ == header_fields(*headers)[name@],
{
    headers.get(name).map(|v| v.as_bytes().to_vec())
}

/// Relies on `std::str::from_utf8`: the text that the bytes encode where
/// they are valid UTF-8, an error otherwise.
#[verifier::external_body]
fn header_as_str(bytes: &[u8]) -> (r: Option<&str>)
    ensures
        r is Some <==> valid_utf8(bytes@),
        r matches Some(t) ==> t@ == decode_utf8(bytes@),
{
    std::str::from_utf8(bytes).ok()
}

/// The text of a header value, or nothing where it is absent or not UTF-8.
fn value_text(bytes: &Option<Vec<u8>>) -> (r: Option<&str>)
    ensures
        match r {
            Some(t) => bytes matches Some(b) && valid_utf8(b@) && t@ == decode_utf8(b@),
            None => bytes is None || !valid_utf8(bytes->0@),
        },
{
    match bytes {
        Some(b) => header_as_str(b.as_slice()),
        None => None,
    }
}

/// Resolves the client address of a connection from the proxy headers of
/// its request (`x-original-forwarded-for`, then `x-real-ip`) and, failing
/// both, from the socket address. A header whose value is not UTF-8 counts
/// as absent.
pub fn real_ip(addr: SocketAddress, headers: &HeaderMap) -> (r: (IpAddress, Source))
    ensures
        (r.0@, r.1) == resolve(
            field_text(header_fields(*headers), "x-original-forwarded-for"@),
            field_text(header_fields(*headers), "x-real-ip"@),
            addr.ip@,
        ),
{
    proof {
        reveal_strlit("x-original-forwarded-for");
        reveal_strlit("x-real-ip");
    }
    let forwarded_bytes = first_header_value(headers, "x-original-forwarded-for");
    let real_ip_bytes = first_header_value(headers, "x-real-ip");
    let forwarded = value_text(&forwarded_bytes);
    let real_ip_text = value_text(&real_ip_bytes);
    pick_best_ip_from_options(forwarded, real_ip_text, addr)
}

} // verus!
