//! DNS record types, classes and response codes.
use vstd::prelude::*;
use vstd::string::*;
use crate::text::{append_decimal, decimal_chars};

verus! {

/// A DNS record type (RFC 1035 and successors).
#[derive(Debug, Clone, Copy, PartialEq, Eq, Hash, Structural)]
pub enum RecordType {
    A,
    NS,
    CNAME,
    SOA,
    PTR,
    MX,
    TXT,
    AAAA,
    SRV,
    OPT,
    ANY,
    Unknown(u16),
}

/// The numeric value of a record type.
pub open spec fn type_code(t: RecordType) -> u16 {
    match t {
        RecordType::A => 1,
        RecordType::NS => 2,
        RecordType::CNAME => 5,
        RecordType::SOA => 6,
        RecordType::PTR => 12,
        RecordType::MX => 15,
        RecordType::TXT => 16,
        RecordType::AAAA => 28,
        RecordType::SRV => 33,
        RecordType::OPT => 41,
        RecordType::ANY => 255,
        RecordType::Unknown(v) => v,
    }
}

/// The record type that a numeric value denotes.
pub open spec fn type_of_code(v: u16) -> RecordType {
    if v == 1 {
        RecordType::A
    } else if v == 2 {
        RecordType::NS
    } else if v == 5 {
        RecordType::CNAME
    } else if v == 6 {
        RecordType::SOA
    } else if v == 12 {
        RecordType::PTR
    } else if v == 15 {
        RecordType::MX
    } else if v == 16 {
        RecordType::TXT
    } else if v == 28 {
        RecordType::AAAA
    } else if v == 33 {
        RecordType::SRV
    } else if v == 41 {
        RecordType::OPT
    } else if v == 255 {
        RecordType::ANY
    } else {
        RecordType::Unknown(v)
    }
}

/// Decoding a numeric type and encoding it again gives the number back.
pub proof fn lemma_type_code_round_trip(v: u16)
    ensures
        type_code(type_of_code(v)) == v,
{
}

/// The mnemonic of a record type; an unknown one is `TYPE` and its number.
pub open spec fn mnemonic_of(t: RecordType) -> Seq<char> {
    match t {
        RecordType::A => "A"@,
        RecordType::NS => "NS"@,
        RecordType::CNAME => "CNAME"@,
        RecordType::SOA => "SOA"@,
        RecordType::PTR => "PTR"@,
        RecordType::MX => "MX"@,
        RecordType::TXT => "TXT"@,
        RecordType::AAAA => "AAAA"@,
        RecordType::SRV => "SRV"@,
        RecordType::OPT => "OPT"@,
        RecordType::ANY => "ANY"@,
        RecordType::Unknown(v) => "TYPE"@ + decimal_chars(v as nat),
    }
}

impl RecordType {
    /// The mnemonic of the type.
    pub fn name(&self) -> (r: String)
        ensures
            r@ == mnemonic_of(*self),
    {
        match self {
            RecordType::A => String::from_str("A"),
            RecordType::NS => String::from_str("NS"),
            RecordType::CNAME => String::from_str("CNAME"),
            RecordType::SOA => String::from_str("SOA"),
            RecordType::PTR => String::from_str("PTR"),
            RecordType::MX => String::from_str("MX"),
            RecordType::TXT => String::from_str("TXT"),
            RecordType::AAAA => String::from_str("AAAA"),
            RecordType::SRV => String::from_str("SRV"),
            RecordType::OPT => String::from_str("OPT"),
            RecordType::ANY => String::from_str("ANY"),
            RecordType::Unknown(v) => {
                let mut s = String::from_str("TYPE");
                append_decimal(&mut s, *v as u64);
                s
            },
        }
    }

    pub fn from_u16(v: u16) -> (r: RecordType)
        ensures
            r == type_of_code(v),
    {
        match v {
            1 => RecordType::A,
            2 => RecordType::NS,
            5 => RecordType::CNAME,
            6 => RecordType::SOA,
            12 => RecordType::PTR,
            15 => RecordType::MX,
            16 => RecordType::TXT,
            28 => RecordType::AAAA,
            33 => RecordType::SRV,
            41 => RecordType::OPT,
            255 => RecordType::ANY,
            other => RecordType::Unknown(other),
        }
    }

    pub fn to_u16(&self) -> (r: u16)
        ensures
            r == type_code(*self),
    {
        match self {
            RecordType::A => 1,
            RecordType::NS => 2,
            RecordType::CNAME => 5,
            RecordType::SOA => 6,
            RecordType::PTR => 12,
            RecordType::MX => 15,
            RecordType::TXT => 16,
            RecordType::AAAA => 28,
            RecordType::SRV => 33,
            RecordType::OPT => 41,
            RecordType::ANY => 255,
            RecordType::Unknown(v) => *v,
        }
    }
}

/// DNS response codes.
#[derive(Debug, Clone, Copy, PartialEq, Eq, Structural)]
pub enum ResponseCode {
    NoError,
    FormErr,
    ServFail,
    NxDomain,
    NotImp,
    Refused,
}

/// The response code that the low four bits of the flags denote; codes that
/// this resolver does not know read as SERVFAIL.
pub open spec fn rcode_of(v: u8) -> ResponseCode {
    if v == 0 {
        ResponseCode::NoError
    } else if v == 1 {
        ResponseCode::FormErr
    } else if v == 3 {
        ResponseCode::NxDomain
    } else if v == 4 {
        ResponseCode::NotImp
    } else if v == 5 {
        ResponseCode::Refused
    } else {
        ResponseCode::ServFail
    }
}

impl ResponseCode {
    pub fn from_u8(v: u8) -> (r: ResponseCode)
        ensures
            r == rcode_of(v),
    {
        match v {
            0 => ResponseCode::NoError,
            1 => ResponseCode::FormErr,
            2 => ResponseCode::ServFail,
            3 => ResponseCode::NxDomain,
            4 => ResponseCode::NotImp,
            5 => ResponseCode::Refused,
            _ => ResponseCode::ServFail,
        }
    }
}

/// DNS class.
#[derive(Debug, Clone, Copy, PartialEq, Eq, Hash, Structural)]
pub enum DnsClass {
    IN,
    CH,
    HS,
    ANY,
    Unknown(u16),
}

/// The numeric value of a class.
pub open spec fn class_code(c: DnsClass) -> u16 {
    match c {
        DnsClass::IN => 1,
        DnsClass::CH => 3,
        DnsClass::HS => 4,
        DnsClass::ANY => 255,
        DnsClass::Unknown(v) => v,
    }
}

/// The class that a numeric value denotes.
pub open spec fn class_of_code(v: u16) -> DnsClass {
    if v == 1 {
        DnsClass::IN
    } else if v == 3 {
        DnsClass::CH
    } else if v == 4 {
        DnsClass::HS
    } else if v == 255 {
        DnsClass::ANY
    } else {
        DnsClass::Unknown(v)
    }
}

impl DnsClass {
    pub fn from_u16(v: u16) -> (r: DnsClass)
        ensures
            r == class_of_code(v),
    {
        match v {
            1 => DnsClass::IN,
            3 => DnsClass::CH,
            4 => DnsClass::HS,
            255 => DnsClass::ANY,
            other => DnsClass::Unknown(other),
        }
    }

    pub fn to_u16(&self) -> (r: u16)
        ensures
            r == class_code(*self),
    {
        match self {
            DnsClass::IN => 1,
            DnsClass::CH => 3,
            DnsClass::HS => 4,
            DnsClass::ANY => 255,
            DnsClass::Unknown(v) => *v,
        }
    }
}

} // verus!
