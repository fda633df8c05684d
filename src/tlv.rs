use vstd::prelude::*;

verus! {

/// Classification of the 7-bit type code of an LLDP TLV.
#[derive(Debug, PartialEq, Eq, Clone, Copy, Structural)]
pub enum TlvType {
    End,
    ChassisID,
    PortID,
    TimeToLive,
    PortDescritpion,
    SystemName,
    SystemDescription,
    SystemCapabilities,
    ManagementAddress,
    Reserved(u8),
    Custom,
    Invalid(u8),
}

/// The classification of a raw type byte.
pub open spec fn type_of_byte(b: u8) -> TlvType {
    if b == 0 {
        TlvType::End
    } else if b == 1 {
        TlvType::ChassisID
    } else if b == 2 {
        TlvType::PortID
    } else if b == 3 {
        TlvType::TimeToLive
    } else if b == 4 {
        TlvType::PortDescritpion
    } else if b == 5 {
        TlvType::SystemName
    } else if b == 6 {
        TlvType::SystemDescription
    } else if b == 7 {
        TlvType::SystemCapabilities
    } else if b == 8 {
        TlvType::ManagementAddress
    } else if b <= 126 {
        TlvType::Reserved(b)
    } else if b == 127 {
        TlvType::Custom
    } else {
        TlvType::Invalid(b)
    }
}

impl TlvType {
    /// The raw byte a type stands for.
    pub open spec fn byte(self) -> u8 {
        match self {
            TlvType::End => 0,
            TlvType::ChassisID => 1,
            TlvType::PortID => 2,
            TlvType::TimeToLive => 3,
            TlvType::PortDescritpion => 4,
            TlvType::SystemName => 5,
            TlvType::SystemDescription => 6,
            TlvType::SystemCapabilities => 7,
            TlvType::ManagementAddress => 8,
            TlvType::Reserved(x) => x,
            TlvType::Custom => 127,
            TlvType::Invalid(x) => x,
        }
    }

    /// A type is well formed when the byte it carries lies in its range.
    pub open spec fn wf(self) -> bool {
        match self {
            TlvType::Reserved(x) => 9 <= x <= 126,
            TlvType::Invalid(x) => 128 <= x,
            _ => true,
        }
    }

    pub fn as_byte(&self) -> (r: u8)
        ensures
            r == self.byte(),
    {
        match self {
            TlvType::End => 0,
            TlvType::ChassisID => 1,
            TlvType::PortID => 2,
            TlvType::TimeToLive => 3,
            TlvType::PortDescritpion => 4,
            TlvType::SystemName => 5,
            TlvType::SystemDescription => 6,
            TlvType::SystemCapabilities => 7,
            TlvType::ManagementAddress => 8,
            TlvType::Reserved(x) => *x,
            TlvType::Custom => 127,
            TlvType::Invalid(x) => *x,
        }
    }
}

impl From<u8> for TlvType {
    fn from(byte: u8) -> (r: TlvType)
        ensures
            r == type_of_byte(byte),
    {
        if byte == 0 {
            TlvType::End
        } else if byte == 1 {
            TlvType::ChassisID
        } else if byte == 2 {
            TlvType::PortID
        } else if byte == 3 {
            TlvType::TimeToLive
        } else if byte == 4 {
            TlvType::PortDescritpion
        } else if byte == 5 {
            TlvType::SystemName
        } else if byte == 6 {
            TlvType::SystemDescription
        } else if byte == 7 {
            TlvType::SystemCapabilities
        } else if byte == 8 {
            TlvType::ManagementAddress
        } else if byte <= 126 {
            TlvType::Reserved(byte)
        } else if byte == 127 {
            TlvType::Custom
        } else {
            TlvType::Invalid(byte)
        }
    }
}

impl vstd::std_specs::convert::FromSpecImpl<u8> for TlvType {
    open spec fn obeys_from_spec() -> bool {
        true
    }

    open spec fn from_spec(v: u8) -> TlvType {
        type_of_byte(v)
    }
}

impl From<TlvType> for u8 {
    fn from(source: TlvType) -> (r: u8)
        ensures
            r == source.byte(),
    {
        source.as_byte()
    }
}

impl vstd::std_specs::convert::FromSpecImpl<TlvType> for u8 {
    open spec fn obeys_from_spec() -> bool {
        true
    }

    open spec fn from_spec(v: TlvType) -> u8 {
        v.byte()
    }
}

/// Classifying a byte and reading the byte back gives the byte itself.
pub proof fn lemma_type_byte_round_trip(b: u8)
    ensures
        type_of_byte(b).byte() == b,
        type_of_byte(b).wf(),
{
}

/// A well-formed type is the classification of its own byte.
pub proof fn lemma_byte_type_round_trip(t: TlvType)
    requires
        t.wf(),
    ensures
        type_of_byte(t.byte()) == t,
{
}

/// One Type-Length-Value record, borrowing its value from the frame it was read from.
#[derive(Debug)]
pub struct TLV<'a> {
    ttype: TlvType,
    length: usize,
    value: &'a [u8],
}

/// A TLV as values: its type, its declared length and its value.
pub type TlvView = (TlvType, usize, Seq<u8>);

impl<'a> View for TLV<'a> {
    type V = TlvView;

    open spec fn view(&self) -> TlvView {
        (self.spec_type(), self.spec_len(), self.spec_value())
    }
}

/// The views of a list of TLVs.
pub open spec fn tlvs_view<'a>(v: Seq<TLV<'a>>) -> Seq<TlvView> {
    v.map_values(|t: TLV<'a>| t@)
}

impl<'a> TLV<'a> {
    pub closed spec fn spec_type(&self) -> TlvType {
        self.ttype
    }

    pub closed spec fn spec_len(&self) -> usize {
        self.length
    }

    pub closed spec fn spec_value(&self) -> Seq<u8> {
        self.value@
    }

    pub fn new(ttype: TlvType, length: usize, value: &'a [u8]) -> (r: TLV<'a>)
        ensures
            r.spec_type() == ttype,
            r.spec_len() == length,
            r.spec_value() == value@,
    {
        TLV { ttype, length, value }
    }

    pub fn tlv_type(&self) -> (r: TlvType)
        ensures
            r == self.spec_type(),
    {
        self.ttype
    }

    pub fn len(&self) -> (r: usize)
        ensures
            r == self.spec_len(),
    {
        self.length
    }

    pub fn value(&self) -> (r: &'a [u8])
        ensures
            r@ == self.spec_value(),
    {
        self.value
    }

    pub fn is_empty(&self) -> (r: bool)
        ensures
            r == (self.spec_value().len() == 0),
    {
        self.value.len() == 0
    }
}

} // verus!
