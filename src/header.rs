use vstd::prelude::*;
use crate::content_id::Cid;
use crate::error::Error;

verus! {

/// The header of a version 1 archive: its root identifiers and the version number.
#[derive(Debug, Clone, PartialEq, Eq)]
pub struct CarHeaderV1 {
    pub roots: Vec<Cid>,
    pub version: u64,
}

impl CarHeaderV1 {
    /// A header with these roots and this version number.
    pub fn new(roots: Vec<Cid>, version: u64) -> (r: Self)
        ensures
            r.roots@ == roots@,
            r.version == version,
    {
        CarHeaderV1 { roots, version }
    }

    /// A version 1 header with these roots.
    pub fn new_v1(roots: Vec<Cid>) -> (r: Self)
        ensures
            r.roots@ == roots@,
            r.version == 1,
    {
        CarHeaderV1 { roots, version: 1 }
    }
}

impl From<Vec<Cid>> for CarHeaderV1 {
    fn from(roots: Vec<Cid>) -> (r: Self) {
        CarHeaderV1 { roots, version: 1 }
    }
}

impl vstd::std_specs::convert::FromSpecImpl<Vec<Cid>> for CarHeaderV1 {
    open spec fn obeys_from_spec() -> bool {
        true
    }

    open spec fn from_spec(roots: Vec<Cid>) -> CarHeaderV1 {
        CarHeaderV1 { roots, version: 1 }
    }
}

/// An archive header, by version. Only version 1 exists so far.
#[derive(Debug, Clone, PartialEq, Eq)]
pub enum CarHeader {
    V1(CarHeaderV1),
}

impl CarHeader {
    /// A version 1 header with these roots.
    pub fn new_v1(roots: Vec<Cid>) -> (r: CarHeader)
        ensures
            r matches CarHeader::V1(h) && h.roots@ == roots@ && h.version == 1,
    {
        CarHeader::V1(CarHeaderV1::new_v1(roots))
    }

    /// The root identifiers.
    pub fn roots(&self) -> (r: &Vec<Cid>)
        ensures
            match self {
                CarHeader::V1(h) => r@ == h.roots@,
            },
    {
        match self {
            CarHeader::V1(h) => &h.roots,
        }
    }

    /// The version number of the variant.
    pub fn version(&self) -> (r: u64)
        ensures
            self is V1 ==> r == 1,
    {
        match self {
            CarHeader::V1(_) => 1,
        }
    }

    /// Turns the fields that the CBOR codec decoded from a header frame into a header.
    /// A decoding error is passed on; a version other than 1 is refused.
    pub fn from_decoded(decoded: Result<CarHeaderV1, Error>) -> (r: Result<CarHeader, Error>)
        ensures
            Self::checked(decoded, r),
    {
        match decoded {
            Ok(h) => {
                if h.version == 1 {
                    Ok(CarHeader::V1(h))
                } else {
                    Err(Error::InvalidFile(String::from_str("unsupported header version")))
                }
            },
            Err(e) => Err(e),
        }
    }

    /// `r` is what checking the decoded header fields `decoded` gives.
    pub open spec fn checked(decoded: Result<CarHeaderV1, Error>, r: Result<CarHeader, Error>) -> bool {
        match decoded {
            Ok(h) => if h.version == 1 {
                r == Ok::<CarHeader, Error>(CarHeader::V1(h))
            } else {
                r matches Err(e) && e is InvalidFile
            },
            Err(e) => r == Err::<CarHeader, Error>(e),
        }
    }
}

} // verus!
