//! Parsing of the dotted IPv4 addresses used for static address
//! configuration.
use vstd::prelude::*;
use crate::command::{digits_value, is_number, parse_u32, split_bytes, split_on, views};

verus! {

/// Byte that separates the octets of a dotted address.
pub const DOT: u8 = 0x2e;

/// A piece of a dotted address that denotes an octet.
pub open spec fn is_octet(t: Seq<u8>) -> bool {
    is_number(t) && digits_value(t) <= 255
}

/// `text` is four octets separated by dots.
pub open spec fn is_dotted_quad(text: Seq<u8>) -> bool {
    let parts = split_on(text, DOT);
    parts.len() == 4 && forall|i: int| 0 <= i < 4 ==> is_octet(#[trigger] parts[i])
}

/// The four octets of a dotted address such as `192.168.1.20`, or `None`
/// when `text` is not four decimal numbers up to 255 separated by dots.
pub fn parse_ip(text: &[u8]) -> (r: Option<[u8; 4]>)
    ensures
        r is Some <==> is_dotted_quad(text@),
        r matches Some(a) ==> forall|i: int|
            0 <= i < 4 ==> a@[i] as int == digits_value(#[trigger] split_on(text@, DOT)[i]),
{
    let parts = split_bytes(text, DOT);
    let ghost ps = split_on(text@, DOT);
    assert(parts@.len() == ps.len());
    if parts.len() != 4 {
        return None;
    }
    let mut out: [u8; 4] = [0u8; 4];
    let mut i: usize = 0;
    while i < 4
        invariant
            i <= 4,
            parts@.len() == 4,
            views(parts@) == ps,
            ps == split_on(text@, DOT),
            forall|j: int| 0 <= j < i ==> is_octet(#[trigger] ps[j]),
            forall|j: int| 0 <= j < i ==> out@[j] as int == digits_value(#[trigger] ps[j]),
        decreases 4 - i,
    {
        let t = parts[i].as_slice();
        assert(t@ == ps[i as int]);
        match parse_u32(t) {
            Some(v) => {
                if v > 255 {
                    assert(!is_octet(ps[i as int]));
                    return None;
                }
                let ghost prev = out@;
                out[i] = v as u8;
                assert(forall|j: int| 0 <= j < 4 && j != i ==> out@[j] == prev[j]);
                assert(out@[i as int] == v as u8);
            },
            None => {
                assert(!is_octet(ps[i as int]));
                return None;
            },
        }
        i = i + 1;
    }
    Some(out)
}

} // verus!
