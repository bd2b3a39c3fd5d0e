//! The one decision the connection handler makes: whether the bytes read
//! from a connection begin with the request line of the root page.

use vstd::prelude::*;

verus! {

/// The bytes of the request line that names the root page:
/// `GET / HTTP/1.1` followed by a carriage return and a line feed.
pub open spec fn root_request_line() -> Seq<u8> {
    seq![71u8, 69u8, 84u8, 32u8, 47u8, 32u8, 72u8, 84u8, 84u8, 80u8, 47u8, 49u8, 46u8, 49u8, 13u8, 10u8]
}

/// Whether a buffer begins with the root request line.
pub open spec fn is_root_request(b: Seq<u8>) -> bool {
    b.len() >= root_request_line().len() && b.subrange(0, root_request_line().len() as int)
        == root_request_line()
}

/// The root request line as an executable value.
fn root_request_bytes() -> (v: Vec<u8>)
    ensures
        v@ == root_request_line(),
{
    let mut v: Vec<u8> = Vec::new();
    v.push(71);
    v.push(69);
    v.push(84);
    v.push(32);
    v.push(47);
    v.push(32);
    v.push(72);
    v.push(84);
    v.push(84);
    v.push(80);
    v.push(47);
    v.push(49);
    v.push(46);
    v.push(49);
    v.push(13);
    v.push(10);
    proof {
        assert(v@ =~= root_request_line());
    }
    v
}

/// Decides whether the buffer holds a request for the root page. The
/// caller serves the root page exactly when this returns true, and its
/// not-found page otherwise.
pub fn route_request(buffer: &[u8]) -> (ok: bool)
    ensures
        ok == is_root_request(buffer@),
{
    let pattern = root_request_bytes();
    if buffer.len() < pattern.len() {
        return false;
    }
    let mut i: usize = 0;
    while i < pattern.len()
        invariant
            pattern@ == root_request_line(),
            buffer@.len() >= pattern@.len(),
            i <= pattern@.len(),
            forall|k: int| 0 <= k < i ==> buffer@[k] == pattern@[k],
        decreases pattern@.len() - i,
    {
        if buffer[i] != pattern[i] {
            proof {
                assert(buffer@.subrange(0, root_request_line().len() as int)[i as int]
                    != root_request_line()[i as int]);
            }
            return false;
        }
        i += 1;
    }
    proof {
        assert(buffer@.subrange(0, root_request_line().len() as int) =~= root_request_line());
    }
    true
}

} // verus!
