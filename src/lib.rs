//! Decoding of LLDP frames that carry HTIP device-management fields.
//!
//! A frame is segmented into TLVs, each TLV is routed to a field decoder by
//! its type and the leading bytes of its value, and the decoded fields are
//! checked by a set of linters.
pub mod dispatcher;
pub mod linters;
pub mod parsers;
pub mod subkeys;
pub mod tlv;

pub use dispatcher::ParserKey as TlvKey;
pub use dispatcher::{Dispatcher, InvalidFrame};
pub use linters::Lint;
pub use parsers::ParseData;
pub use tlv::{TlvType, TLV};

use vstd::prelude::*;

use crate::parsers::DataView;
use crate::subkeys::KeyView;

verus! {

/// The error that std reports for bytes that are not UTF-8; it is carried,
/// not inspected.
#[verifier::external_type_specification]
#[verifier::external_body]
pub struct ExUtf8Error(std::str::Utf8Error);

/// The errors that a field decoder may produce. A slice holds the
/// original bytes that caused the error.
#[derive(Debug, PartialEq, Eq)]
pub enum ParsingError<'a> {
    /// Not enough data to decode
    TooShort,
    /// The actual length is different from what is expected
    UnexpectedLength(usize),
    /// A sequence of bytes is different from what was expected
    NotEqual(&'a [u8]),
    /// A percentage outside the range 0 to 100
    InvalidPercentage(u8),
    /// The text is not valid UTF-8
    InvalidText(std::str::Utf8Error),
    /// Unknown type or subtype
    Unknown,
    /// The frame could not be segmented past these bytes
    InvalidFrame(&'a [u8]),
}

/// What a [ParsingError] says, with the offending bytes as a sequence.
pub enum ErrorView {
    TooShort,
    UnexpectedLength(usize),
    NotEqual(Seq<u8>),
    InvalidPercentage(u8),
    InvalidText,
    Unknown,
    InvalidFrame(Seq<u8>),
}

impl<'a> View for ParsingError<'a> {
    type V = ErrorView;

    open spec fn view(&self) -> ErrorView {
        match self {
            ParsingError::TooShort => ErrorView::TooShort,
            ParsingError::UnexpectedLength(n) => ErrorView::UnexpectedLength(*n),
            ParsingError::NotEqual(b) => ErrorView::NotEqual(b@),
            ParsingError::InvalidPercentage(p) => ErrorView::InvalidPercentage(*p),
            ParsingError::InvalidText(_) => ErrorView::InvalidText,
            ParsingError::Unknown => ErrorView::Unknown,
            ParsingError::InvalidFrame(b) => ErrorView::InvalidFrame(b@),
        }
    }
}

/// A lint finding associated with a frame.
#[derive(Debug)]
pub struct LintEntry {
    /// [Lint] type
    pub lint: Lint,
    /// Related tlv & prefix
    pub tlv_key: Option<TlvKey>,
    /// Any additional info, used to customize the message
    pub extra_info: Option<String>,
}

/// What a [LintEntry] says, as values.
pub type LintView = (Lint, Option<KeyView>, Option<Seq<char>>);

impl View for LintEntry {
    type V = LintView;

    open spec fn view(&self) -> LintView {
        (
            self.lint,
            match self.tlv_key {
                Some(k) => Some(k@),
                None => None,
            },
            match self.extra_info {
                Some(s) => Some(s@),
                None => None,
            },
        )
    }
}

/// The views of a list of lint findings.
pub open spec fn lints_view(l: Seq<LintEntry>) -> Seq<LintView> {
    l.map_values(|e: LintEntry| e@)
}

impl LintEntry {
    /// Create a new LintEntry of the given type
    pub fn new(lint: Lint) -> (r: LintEntry)
        ensures
            r@ == (lint, None::<KeyView>, None::<Seq<char>>),
    {
        LintEntry { lint, tlv_key: None, extra_info: None }
    }

    pub fn with_tlv(self, key: TlvKey) -> (r: LintEntry)
        ensures
            r@ == (self@.0, Some(key@), self@.2),
    {
        LintEntry { lint: self.lint, tlv_key: Some(key), extra_info: self.extra_info }
    }

    pub fn with_extra_info(self, info: String) -> (r: LintEntry)
        ensures
            r@ == (self@.0, self@.1, Some(info@)),
    {
        LintEntry { lint: self.lint, tlv_key: self.tlv_key, extra_info: Some(info) }
    }
}

/// The decoded information of the TLV that a key indicates.
pub type InfoEntry = (TlvKey, ParseData);

/// The decoding error of the TLV that a key indicates.
pub type ErrorEntry<'a> = (TlvKey, ParsingError<'a>);

/// The views of decoded entries.
pub open spec fn infos_view(info: Seq<InfoEntry>) -> Seq<(KeyView, DataView)> {
    info.map_values(|e: InfoEntry| (e.0@, e.1@))
}

/// The views of error entries.
pub open spec fn errors_view<'a>(errors: Seq<ErrorEntry<'a>>) -> Seq<(KeyView, ErrorView)> {
    errors.map_values(|e: ErrorEntry<'a>| (e.0@, e.1@))
}

/// Everything decoded from one HTIP frame.
#[derive(Debug)]
pub struct FrameInfo<'a> {
    /// All the TLVs of the frame
    pub tlvs: Vec<TLV<'a>>,
    /// Information decoded from the TLVs, in their order
    pub info: Vec<InfoEntry>,
    /// Errors of the decoders, in the order of the TLVs
    pub errors: Vec<ErrorEntry<'a>>,
    /// Findings of the linters
    pub lints: Vec<LintEntry>,
}

} // verus!
