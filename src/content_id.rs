use vstd::prelude::*;
use crate::error::Error;
use vstd::slice::slice_to_vec;

verus! {

/// What `cid::Cid::read_bytes` makes of the front of `s`: the number of bytes that one
/// identifier takes there, or `None` when no identifier can be read from it.
pub uninterp spec fn cid_prefix(s: Seq<u8>) -> Option<nat>;

/// `b` is the whole binary form of one identifier: reading an identifier from any bytes
/// that start with `b` takes exactly `b`.
pub open spec fn valid_cid(b: Seq<u8>) -> bool {
    &&& b.len() > 0
    &&& forall|t: Seq<u8>|
        #![trigger cid_prefix(t)]
        t.len() >= b.len() && t.take(b.len() as int) == b ==> cid_prefix(t) == Some(b.len())
}

/// Relies on `cid::Cid::read_bytes`: it reads one identifier from the front of a reader,
/// version and codec varints and then the multihash (or the fixed 34-byte legacy form),
/// and consumes exactly the bytes it reads, so its outcome depends on those bytes alone.
#[verifier::external_body]
fn read_cid_prefix(frame: &[u8]) -> (r: Result<usize, String>)
    ensures
        r is Ok <==> cid_prefix(frame@) is Some,
        r matches Ok(n) ==> {
            &&& cid_prefix(frame@) == Some(n as nat)
            &&& 0 < n <= frame@.len()
            &&& forall|t: Seq<u8>|
                #![trigger cid_prefix(t)]
                t.len() >= n && t.take(n as int) == frame@.take(n as int) ==> cid_prefix(t)
                    == Some(n as nat)
        },
{
    let mut cursor = std::io::Cursor::new(frame);
    match cid::Cid::read_bytes(&mut cursor) {
        Ok(_) => Ok(cursor.position() as usize),
        Err(e) => Err(e.to_string()),
    }
}

/// Splits `frame` into the identifier at its front and the rest.
/// On success returns the length of the identifier.
pub fn split_cid(frame: &[u8]) -> (r: Result<usize, Error>)
    ensures
        r is Ok <==> cid_prefix(frame@) is Some,
        r matches Ok(n) ==> {
            &&& cid_prefix(frame@) == Some(n as nat)
            &&& n <= frame@.len()
            &&& valid_cid(frame@.take(n as int))
        },
        r matches Err(e) ==> e is Parsing,
{
    match read_cid_prefix(frame) {
        Ok(n) => {
            proof {
                let b = frame@.take(n as int);
                assert forall|t: Seq<u8>|
                    #![trigger cid_prefix(t)]
                    t.len() >= b.len() && t.take(b.len() as int) == b implies cid_prefix(t)
                        == Some(b.len()) by {
                    assert(t.take(n as int) == frame@.take(n as int));
                }
            }
            Ok(n)
        },
        Err(text) => Err(Error::Parsing(text)),
    }
}

/// A content identifier, held in its binary form.
#[derive(Debug, Clone, PartialEq, Eq, Hash)]
pub struct Cid {
    bytes: Vec<u8>,
}

impl View for Cid {
    type V = Seq<u8>;

    closed spec fn view(&self) -> Seq<u8> {
        self.bytes@
    }
}

impl Cid {
    /// The identifier whose binary form is exactly `bytes`.
    pub fn from_bytes(bytes: &[u8]) -> (r: Result<Cid, Error>)
        ensures
            r is Ok <==> cid_prefix(bytes@) == Some(bytes@.len()),
            r matches Ok(c) ==> c@ == bytes@ && valid_cid(c@),
            r matches Err(e) ==> e is Parsing,
    {
        match split_cid(bytes) {
            Ok(n) => {
                if n == bytes.len() {
                    proof {
                        assert(bytes@.take(n as int) =~= bytes@);
                    }
                    Ok(Cid { bytes: slice_to_vec(bytes) })
                } else {
                    Err(Error::Parsing(String::from_str("trailing bytes after identifier")))
                }
            },
            Err(e) => Err(e),
        }
    }

    /// Wraps bytes already known to be one whole identifier.
    pub(crate) fn from_valid(bytes: Vec<u8>) -> (r: Cid)
        ensures
            r@ == bytes@,
    {
        Cid { bytes }
    }

    /// The binary form.
    pub fn to_bytes(&self) -> (r: Vec<u8>)
        ensures
            r@ == self@,
    {
        self.bytes.clone()
    }

    /// The binary form, borrowed.
    pub fn as_bytes(&self) -> (r: &[u8])
        ensures
            r@ == self@,
    {
        self.bytes.as_slice()
    }
}

} // verus!
