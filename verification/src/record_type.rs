//! WARC record types and their filter bits.
use crate::bytes::{bytes_eq, lower_seq, to_lower_vec};
use vstd::prelude::*;

verus! {

/// WARC record type enum
#[derive(Debug, Clone, Copy, PartialEq, Eq, Hash, Structural)]
pub enum WarcRecordType {
    WarcInfo,
    Response,
    Resource,
    Request,
    Metadata,
    Revisit,
    Conversion,
    Continuation,
    Unknown,
    AnyType,
    NoType,
}

/// Filter bit of each record type (`AnyType` sets all bits, `NoType` none).
pub open spec fn type_bits(t: WarcRecordType) -> u16 {
    match t {
        WarcRecordType::WarcInfo => 2,
        WarcRecordType::Response => 4,
        WarcRecordType::Resource => 8,
        WarcRecordType::Request => 16,
        WarcRecordType::Metadata => 32,
        WarcRecordType::Revisit => 64,
        WarcRecordType::Conversion => 128,
        WarcRecordType::Continuation => 256,
        WarcRecordType::Unknown => 512,
        WarcRecordType::AnyType => 65535,
        WarcRecordType::NoType => 0,
    }
}

/// `WARC-Type` name of each record type.
pub open spec fn record_type_name(t: WarcRecordType) -> Seq<char> {
    match t {
        WarcRecordType::WarcInfo => "warcinfo"@,
        WarcRecordType::Response => "response"@,
        WarcRecordType::Resource => "resource"@,
        WarcRecordType::Request => "request"@,
        WarcRecordType::Metadata => "metadata"@,
        WarcRecordType::Revisit => "revisit"@,
        WarcRecordType::Conversion => "conversion"@,
        WarcRecordType::Continuation => "continuation"@,
        _ => "unknown"@,
    }
}

/// `WARC-Type` name of each record type as ASCII bytes.
pub open spec fn type_name_bytes(t: WarcRecordType) -> Seq<u8> {
    match t {
        WarcRecordType::WarcInfo => seq![119u8, 97, 114, 99, 105, 110, 102, 111],
        WarcRecordType::Response => seq![114u8, 101, 115, 112, 111, 110, 115, 101],
        WarcRecordType::Resource => seq![114u8, 101, 115, 111, 117, 114, 99, 101],
        WarcRecordType::Request => seq![114u8, 101, 113, 117, 101, 115, 116],
        WarcRecordType::Metadata => seq![109u8, 101, 116, 97, 100, 97, 116, 97],
        WarcRecordType::Revisit => seq![114u8, 101, 118, 105, 115, 105, 116],
        WarcRecordType::Conversion => seq![99u8, 111, 110, 118, 101, 114, 115, 105, 111, 110],
        WarcRecordType::Continuation => seq![99u8, 111, 110, 116, 105, 110, 117, 97, 116, 105, 111, 110],
        _ => seq![117u8, 110, 107, 110, 111, 119, 110],
    }
}

/// Record type for a `WARC-Type` name compared without regard to ASCII case.
pub open spec fn type_from_name(name: Seq<u8>) -> Option<WarcRecordType> {
    let l = lower_seq(name);
    if l == type_name_bytes(WarcRecordType::WarcInfo) {
        Some(WarcRecordType::WarcInfo)
    } else if l == type_name_bytes(WarcRecordType::Response) {
        Some(WarcRecordType::Response)
    } else if l == type_name_bytes(WarcRecordType::Resource) {
        Some(WarcRecordType::Resource)
    } else if l == type_name_bytes(WarcRecordType::Request) {
        Some(WarcRecordType::Request)
    } else if l == type_name_bytes(WarcRecordType::Metadata) {
        Some(WarcRecordType::Metadata)
    } else if l == type_name_bytes(WarcRecordType::Revisit) {
        Some(WarcRecordType::Revisit)
    } else if l == type_name_bytes(WarcRecordType::Conversion) {
        Some(WarcRecordType::Conversion)
    } else if l == type_name_bytes(WarcRecordType::Continuation) {
        Some(WarcRecordType::Continuation)
    } else if l == type_name_bytes(WarcRecordType::Unknown) {
        Some(WarcRecordType::Unknown)
    } else {
        None
    }
}

/// Record type with the given filter bits, if any.
pub open spec fn type_from_bits(value: u16) -> Option<WarcRecordType> {
    if value == 2 {
        Some(WarcRecordType::WarcInfo)
    } else if value == 4 {
        Some(WarcRecordType::Response)
    } else if value == 8 {
        Some(WarcRecordType::Resource)
    } else if value == 16 {
        Some(WarcRecordType::Request)
    } else if value == 32 {
        Some(WarcRecordType::Metadata)
    } else if value == 64 {
        Some(WarcRecordType::Revisit)
    } else if value == 128 {
        Some(WarcRecordType::Conversion)
    } else if value == 256 {
        Some(WarcRecordType::Continuation)
    } else if value == 512 {
        Some(WarcRecordType::Unknown)
    } else if value == 65535 {
        Some(WarcRecordType::AnyType)
    } else if value == 0 {
        Some(WarcRecordType::NoType)
    } else {
        None
    }
}

impl Default for WarcRecordType {
    fn default() -> (r: Self)
        ensures
            r == WarcRecordType::NoType,
    {
        WarcRecordType::NoType
    }
}

impl WarcRecordType {
    /// `WARC-Type` name of the record type (`"unknown"` for `Unknown`, `AnyType`, `NoType`).
    pub fn as_str(&self) -> (r: &'static str)
        ensures
            r@ == record_type_name(*self),
    {
        match self {
            WarcRecordType::WarcInfo => "warcinfo",
            WarcRecordType::Response => "response",
            WarcRecordType::Resource => "resource",
            WarcRecordType::Request => "request",
            WarcRecordType::Metadata => "metadata",
            WarcRecordType::Revisit => "revisit",
            WarcRecordType::Conversion => "conversion",
            WarcRecordType::Continuation => "continuation",
            _ => "unknown",
        }
    }

    /// `WARC-Type` name of the record type as ASCII bytes.
    pub fn name_bytes(&self) -> (r: Vec<u8>)
        ensures
            r@ == type_name_bytes(*self),
    {
        let r: Vec<u8> = match self {
            WarcRecordType::WarcInfo => vec![119u8, 97, 114, 99, 105, 110, 102, 111],
            WarcRecordType::Response => vec![114u8, 101, 115, 112, 111, 110, 115, 101],
            WarcRecordType::Resource => vec![114u8, 101, 115, 111, 117, 114, 99, 101],
            WarcRecordType::Request => vec![114u8, 101, 113, 117, 101, 115, 116],
            WarcRecordType::Metadata => vec![109u8, 101, 116, 97, 100, 97, 116, 97],
            WarcRecordType::Revisit => vec![114u8, 101, 118, 105, 115, 105, 116],
            WarcRecordType::Conversion => vec![99u8, 111, 110, 118, 101, 114, 115, 105, 111, 110],
            WarcRecordType::Continuation => vec![99u8, 111, 110, 116, 105, 110, 117, 97, 116, 105, 111, 110],
            _ => vec![117u8, 110, 107, 110, 111, 119, 110],
        };
        assert(r@ =~= type_name_bytes(*self));
        r
    }

    /// Filter bits of the record type.
    pub fn bits(&self) -> (r: u16)
        ensures
            r == type_bits(*self),
    {
        match self {
            WarcRecordType::WarcInfo => 2,
            WarcRecordType::Response => 4,
            WarcRecordType::Resource => 8,
            WarcRecordType::Request => 16,
            WarcRecordType::Metadata => 32,
            WarcRecordType::Revisit => 64,
            WarcRecordType::Conversion => 128,
            WarcRecordType::Continuation => 256,
            WarcRecordType::Unknown => 512,
            WarcRecordType::AnyType => 65535,
            WarcRecordType::NoType => 0,
        }
    }

    /// Whether the record type's bit is set in `bitmask`.
    pub fn matches_bitmask(&self, bitmask: u16) -> (r: bool)
        ensures
            r == (type_bits(*self) & bitmask != 0),
    {
        self.bits() & bitmask != 0
    }

    /// Record type with the given filter bits.
    pub fn try_from_u16(value: u16) -> (r: Result<Self, &'static str>)
        ensures
            match type_from_bits(value) {
                Some(t) => r == Ok::<Self, &'static str>(t),
                None => r matches Err(m) && m@ == "Invalid enum value."@,
            },
    {
        match value {
            2 => Ok(WarcRecordType::WarcInfo),
            4 => Ok(WarcRecordType::Response),
            8 => Ok(WarcRecordType::Resource),
            16 => Ok(WarcRecordType::Request),
            32 => Ok(WarcRecordType::Metadata),
            64 => Ok(WarcRecordType::Revisit),
            128 => Ok(WarcRecordType::Conversion),
            256 => Ok(WarcRecordType::Continuation),
            512 => Ok(WarcRecordType::Unknown),
            65535 => Ok(WarcRecordType::AnyType),
            0 => Ok(WarcRecordType::NoType),
            _ => Err("Invalid enum value."),
        }
    }

    /// Record type for a `WARC-Type` name, ignoring ASCII case.
    pub fn try_from_bytes(value: &[u8]) -> (r: Result<Self, &'static str>)
        ensures
            match type_from_name(value@) {
                Some(t) => r == Ok::<Self, &'static str>(t),
                None => r matches Err(m) && m@ == "Invalid enum value."@,
            },
    {
        let l = to_lower_vec(value);
        let all = [
            WarcRecordType::WarcInfo,
            WarcRecordType::Response,
            WarcRecordType::Resource,
            WarcRecordType::Request,
            WarcRecordType::Metadata,
            WarcRecordType::Revisit,
            WarcRecordType::Conversion,
            WarcRecordType::Continuation,
            WarcRecordType::Unknown,
        ];
        let mut i: usize = 0;
        while i < 9
            invariant
                i <= 9,
                l@ == lower_seq(value@),
                all@ == seq![
                    WarcRecordType::WarcInfo,
                    WarcRecordType::Response,
                    WarcRecordType::Resource,
                    WarcRecordType::Request,
                    WarcRecordType::Metadata,
                    WarcRecordType::Revisit,
                    WarcRecordType::Conversion,
                    WarcRecordType::Continuation,
                    WarcRecordType::Unknown,
                ],
                forall|j: int| 0 <= j < i ==> l@ != type_name_bytes(#[trigger] all@[j]),
            decreases 9 - i,
        {
            let t = all[i];
            let name = t.name_bytes();
            if bytes_eq(l.as_slice(), name.as_slice()) {
                return Ok(t);
            }
            i = i + 1;
        }
        assert(l@ != type_name_bytes(all@[0]));
        assert(l@ != type_name_bytes(all@[1]));
        assert(l@ != type_name_bytes(all@[2]));
        assert(l@ != type_name_bytes(all@[3]));
        assert(l@ != type_name_bytes(all@[4]));
        assert(l@ != type_name_bytes(all@[5]));
        assert(l@ != type_name_bytes(all@[6]));
        assert(l@ != type_name_bytes(all@[7]));
        assert(l@ != type_name_bytes(all@[8]));
        Err("Invalid enum value.")
    }

    /// Record type for a `WARC-Type` name given as text, ignoring ASCII case.
    pub fn try_from_str(value: &str) -> (r: Result<Self, &'static str>)
        ensures
            match type_from_name(vstd::utf8::encode_utf8(value@)) {
                Some(t) => r == Ok::<Self, &'static str>(t),
                None => r matches Err(m) && m@ == "Invalid enum value."@,
            },
    {
        Self::try_from_bytes(value.as_bytes())
    }
}

} // verus!
