use std::cmp::Ordering;

use vstd::prelude::*;

use crate::linters::{
    chassis_spec, count_lint, default_whitelists, end_tlv_spec, invalid_chars_spec, lemma_count_lint_concat,
    lemma_count_lint_small, lemma_end_tlv_presence, CheckEndTlv, InfoView, InvalidChars, Lint, Linter,
    TLV1Linter,
};
use crate::parsers::{
    result_view, AnyBinary, Connections, Context, DataView, Mac, NoData, Number, NumberSize, ParseData,
    Parser, Percentage, SizedNumber, SizedText, Text, TypedData,
};
use crate::subkeys::{
    bytes_lt, key_lt, key_matches, keys_compatible, lemma_bytes_lt_irreflexive, lemma_bytes_lt_total,
    prefix_cmp, probe_cmp, KeyView, LexOrder, Storage,
};
use crate::tlv::{tlvs_view, type_of_byte, TlvType, TlvView, TLV};
use crate::{
    errors_view, infos_view, lints_view, ErrorEntry, ErrorView, FrameInfo, InfoEntry, LintEntry, LintView,
    ParsingError, TlvKey,
};

verus! {

/// The organizationally unique identifier that HTIP fields carry.
pub open spec fn ttc_oui() -> Seq<u8> {
    seq![0xe0u8, 0x27u8, 0x1au8]
}

fn ttc_oui_bytes() -> (r: Vec<u8>)
    ensures
        r@ == ttc_oui(),
{
    let r: Vec<u8> = vec![0xe0u8, 0x27u8, 0x1au8];
    assert(r@ =~= ttc_oui());
    r
}

/// Unique combination of a TLV type and a binary prefix. If a TLV matches
/// a key, the decoder registered for that key (if any) handles it.
#[derive(PartialEq, Eq, PartialOrd, Ord, Clone, Debug, Hash)]
pub struct ParserKey {
    /// type of tlv
    pub tlv_type: u8,
    /// binary prefix that matches the beginning of the contents of the tlv
    pub prefix: Vec<u8>,
}

impl View for ParserKey {
    type V = KeyView;

    open spec fn view(&self) -> KeyView {
        (self.tlv_type, self.prefix@)
    }
}

/// The key of an HTIP field: the Custom type and the identifier, then `p`.
pub open spec fn htip_key(p: Seq<u8>) -> KeyView {
    (127u8, ttc_oui() + p)
}

impl ParserKey {
    pub fn new(tlv_type: u8, prefix: Vec<u8>) -> (r: Self)
        ensures
            r@ == (tlv_type, prefix@),
    {
        ParserKey { tlv_type, prefix }
    }

    pub fn htip(prefix: Vec<u8>) -> (r: Self)
        ensures
            r@ == htip_key(prefix@),
    {
        let mut full = ttc_oui_bytes();
        let mut i: usize = 0;
        while i < prefix.len()
            invariant
                i <= prefix@.len(),
                full@ == ttc_oui() + prefix@.take(i as int),
            decreases prefix@.len() - i,
        {
            full.push(prefix[i]);
            i = i + 1;
            assert(full@ =~= ttc_oui() + prefix@.take(i as int));
        }
        assert(prefix@.take(i as int) =~= prefix@);
        ParserKey { tlv_type: TlvType::Custom.as_byte(), prefix: full }
    }

    /// A copy of the key.
    pub fn duplicate(&self) -> (r: Self)
        ensures
            r@ == self@,
    {
        let prefix = self.prefix.clone();
        assert(prefix@ =~= self.prefix@);
        ParserKey { tlv_type: self.tlv_type, prefix }
    }

    /// Compares a key prefix with a TLV value, as [prefix_cmp] says.
    pub fn cmp_contents(key_val: &[u8], tlv_val: &[u8]) -> (r: Ordering)
        ensures
            r == prefix_cmp(key_val@, tlv_val@),
    {
        let mut i: usize = 0;
        assert(key_val@.skip(0) =~= key_val@);
        assert(tlv_val@.skip(0) =~= tlv_val@);
        while i < key_val.len()
            invariant
                i <= key_val@.len(),
                i <= tlv_val@.len(),
                prefix_cmp(key_val@, tlv_val@) == prefix_cmp(key_val@.skip(i as int), tlv_val@.skip(i as int)),
            decreases key_val@.len() - i,
        {
            if i == tlv_val.len() {
                return Ordering::Greater;
            }
            if key_val[i] < tlv_val[i] {
                return Ordering::Less;
            }
            if key_val[i] > tlv_val[i] {
                return Ordering::Greater;
            }
            assert(key_val@.skip(i as int).skip(1) =~= key_val@.skip(i + 1));
            assert(tlv_val@.skip(i as int).skip(1) =~= tlv_val@.skip(i + 1));
            i = i + 1;
        }
        Ordering::Equal
    }

    /// Compares two keys in the order in which they are stored.
    pub fn cmp_key(&self, other: &ParserKey) -> (r: Ordering)
        ensures
            (r == Ordering::Less) == key_lt(self@, other@),
            (r == Ordering::Greater) == key_lt(other@, self@),
            (r == Ordering::Equal) == (self@ == other@),
    {
        proof {
            lemma_bytes_lt_total(self.prefix@, other.prefix@);
            lemma_bytes_lt_irreflexive(self.prefix@);
        }
        if self.tlv_type < other.tlv_type {
            return Ordering::Less;
        }
        if self.tlv_type > other.tlv_type {
            return Ordering::Greater;
        }
        let a = self.prefix.as_slice();
        let b = other.prefix.as_slice();
        let mut i: usize = 0;
        assert(a@.skip(0) =~= a@);
        assert(b@.skip(0) =~= b@);
        assert(a@.take(0) =~= b@.take(0));
        while i < a.len() && i < b.len()
            invariant
                i <= a@.len(),
                i <= b@.len(),
                a@ == self.prefix@,
                b@ == other.prefix@,
                self.tlv_type == other.tlv_type,
                a@.take(i as int) == b@.take(i as int),
                bytes_lt(a@, b@) == bytes_lt(a@.skip(i as int), b@.skip(i as int)),
                bytes_lt(b@, a@) == bytes_lt(b@.skip(i as int), a@.skip(i as int)),
            decreases a@.len() - i,
        {
            assert(a@.skip(i as int)[0] == a@[i as int]);
            assert(b@.skip(i as int)[0] == b@[i as int]);
            if a[i] < b[i] {
                return Ordering::Less;
            }
            if a[i] > b[i] {
                return Ordering::Greater;
            }
            assert(a@.skip(i as int).skip(1) =~= a@.skip(i + 1));
            assert(b@.skip(i as int).skip(1) =~= b@.skip(i + 1));
            assert(a@.take(i + 1) =~= a@.take(i as int).push(a@[i as int]));
            assert(b@.take(i + 1) =~= b@.take(i as int).push(b@[i as int]));
            i = i + 1;
        }
        if a.len() < b.len() {
            Ordering::Less
        } else if a.len() > b.len() {
            Ordering::Greater
        } else {
            assert(a@ =~= a@.take(i as int));
            assert(b@ =~= b@.take(i as int));
            Ordering::Equal
        }
    }
}

impl ParserKey {
    /// Compares the key with a TLV, as [probe_cmp] says.
    pub fn cmp_with_tlv(&self, other: &TLV) -> (r: Ordering)
        ensures
            r == probe_cmp(self@, other.spec_type().byte(), other.spec_value()),
    {
        let t = other.tlv_type().as_byte();
        if self.tlv_type < t {
            Ordering::Less
        } else if self.tlv_type > t {
            Ordering::Greater
        } else {
            ParserKey::cmp_contents(self.prefix.as_slice(), other.value())
        }
    }
}

impl<'a> LexOrder<TLV<'a>> for ParserKey {
    open spec fn lex_order(&self, other: &TLV<'a>) -> Ordering {
        probe_cmp(self@, other.spec_type().byte(), other.spec_value())
    }

    fn lex_cmp(&self, other: &TLV<'a>) -> (r: Ordering) {
        self.cmp_with_tlv(other)
    }
}

/// The TLV at the front of `s`: the type is the upper seven bits of the
/// first byte, the length the lowest bit of the first byte followed by the
/// second byte, and the value the bytes after the header.
pub open spec fn tlv_at(s: Seq<u8>) -> Option<TlvView> {
    if s.len() < 2 {
        None
    } else {
        let length = (s[0] % 2) as nat * 256 + s[1] as nat;
        if length + 2 > s.len() {
            None
        } else {
            Some((type_of_byte(s[0] / 2), length as usize, s.subrange(2, 2 + length as int)))
        }
    }
}

/// Splits `s` into TLVs from the front until it is used up or no TLV can
/// be read: the TLVs read, and the bytes left over.
pub open spec fn segment(s: Seq<u8>) -> (Seq<TlvView>, Seq<u8>)
    decreases s.len(),
{
    if s.len() == 0 {
        (Seq::empty(), Seq::empty())
    } else {
        match tlv_at(s) {
            None => (Seq::empty(), s),
            Some(t) => {
                let rest = segment(s.skip(2 + t.1));
                (seq![t] + rest.0, rest.1)
            },
        }
    }
}

/// Reads the TLV at the front of the input.
pub fn parse_as_tlv<'a>(input: &'a [u8]) -> (r: Result<TLV<'a>, ParsingError<'a>>)
    ensures
        match tlv_at(input@) {
            Some(t) => r is Ok && r->Ok_0@ == t,
            None => r is Err && r->Err_0@ == ErrorView::TooShort,
        },
{
    if input.len() < 2 {
        return Err(ParsingError::TooShort);
    }
    let high_bit = (input[0] % 2) as usize * 256;
    let length = high_bit + input[1] as usize;
    if length + 2 > input.len() {
        return Err(ParsingError::TooShort);
    }
    Ok(TLV::new(TlvType::from(input[0] / 2), length, vstd::slice::slice_subrange(input, 2, 2 + length)))
}

/// The result for a frame that cannot be segmented: a stretch of it could
/// not be read as a TLV.
#[derive(Debug)]
pub struct InvalidFrame<'a> {
    /// The TLVs that were read before the failure
    pub tlvs: Vec<TLV<'a>>,
    /// The bytes that could not be read as a TLV. The failure may come from
    /// the last TLV in [InvalidFrame::tlvs].
    pub pointer: &'a [u8],
}

/// Splits a frame into TLVs, stopping at the first stretch that cannot be read.
pub fn parse_frame<'a>(frame: &'a [u8]) -> (r: Result<Vec<TLV<'a>>, InvalidFrame<'a>>)
    ensures
        segment(frame@).1.len() == 0 ==> r is Ok && tlvs_view(r->Ok_0@) == segment(frame@).0,
        segment(frame@).1.len() > 0 ==> r is Err && tlvs_view(r->Err_0.tlvs@) == segment(frame@).0
            && r->Err_0.pointer@ == segment(frame@).1,
{
    let mut result: Vec<TLV<'a>> = Vec::new();
    let mut input = frame;
    assert(tlvs_view(result@) + segment(input@).0 =~= segment(input@).0);
    while input.len() != 0
        invariant
            segment(frame@) == (tlvs_view(result@) + segment(input@).0, segment(input@).1),
        decreases input@.len(),
    {
        match parse_as_tlv(input) {
            Ok(tlv) => {
                let ghost before = input@;
                let len = tlv.len();
                input = vstd::slice::slice_subrange(input, len + 2, input.len());
                let ghost prev = result@;
                result.push(tlv);
                assert(input@ =~= before.skip(2 + len));
                assert(tlvs_view(result@) =~= tlvs_view(prev).push(tlv@));
                assert(tlvs_view(result@) + segment(input@).0 =~= tlvs_view(prev) + segment(before).0);
            },
            Err(_) => {
                assert(tlvs_view(result@) + segment(input@).0 =~= tlvs_view(result@));
                return Err(InvalidFrame { tlvs: result, pointer: input });
            },
        }
    }
    assert(tlvs_view(result@) + segment(input@).0 =~= tlvs_view(result@));
    Ok(result)
}

/// The decimal digits of `n`.
pub open spec fn decimal(n: nat) -> Seq<char>
    decreases n,
{
    if n < 10 {
        seq![((n + 48) as u8) as char]
    } else {
        decimal(n / 10).push(((n % 10 + 48) as u8) as char)
    }
}

/// The note on a decoder that left bytes over.
pub open spec fn extra_bytes_note(n: nat) -> Seq<char> {
    decimal(n) + " extra bytes"@
}

/// Relies on the standard formatting of an integer with `{}`: its decimal
/// digits, followed by the literal text.
#[verifier::external_body]
fn extra_bytes_text(n: usize) -> (r: String)
    ensures
        r@ == extra_bytes_note(n as nat),
{
    format!("{} extra bytes", n)
}

/// How one TLV is decoded with a set of registered decoders: the key it
/// goes under, the decoder's result, and the lints it raises.
pub open spec fn decode_tlv(reg: Map<KeyView, Parser>, t: TlvView) -> (KeyView, Result<DataView, ErrorView>, Seq<LintView>) {
    let code = t.0.byte();
    if exists|k: KeyView| reg.contains_key(k) && key_matches(k, code, t.2) {
        let k = choose|k: KeyView| reg.contains_key(k) && key_matches(k, code, t.2);
        let rest = t.2.skip(k.1.len() as int);
        let (res, n) = reg[k].spec_decode(rest);
        if res is Ok && n < rest.len() {
            (k, res, seq![(Lint::Warning(2), Some(k), Some(extra_bytes_note((rest.len() - n) as nat)))])
        } else {
            (k, res, Seq::empty())
        }
    } else {
        let k = (code, Seq::<u8>::empty());
        (k, Ok(DataView::Binary(t.2)), seq![(Lint::Warning(3), Some(k), None::<Seq<char>>)])
    }
}

/// Decodes TLVs in order: the decoded entries, the errors, and the lints
/// of the decoding.
pub open spec fn decode_tlvs(reg: Map<KeyView, Parser>, tlvs: Seq<TlvView>) -> (InfoView, Seq<(KeyView, ErrorView)>, Seq<LintView>)
    decreases tlvs.len(),
{
    if tlvs.len() == 0 {
        (Seq::empty(), Seq::empty(), Seq::empty())
    } else {
        let (info, errors, lints) = decode_tlvs(reg, tlvs.drop_last());
        let (k, res, l) = decode_tlv(reg, tlvs.last());
        match res {
            Ok(d) => (info.push((k, d)), errors, lints + l),
            Err(e) => (info, errors.push((k, e)), lints + l),
        }
    }
}

/// What the linters, in order, find in the decoded entries.
pub open spec fn linters_spec(linters: Seq<Linter>, info: InfoView) -> Seq<LintView>
    decreases linters.len(),
{
    if linters.len() == 0 {
        Seq::empty()
    } else {
        linters_spec(linters.drop_last(), info) + linters.last().spec_lint(info)
    }
}

/// A [FrameInfo] as values.
pub type FrameView = (Seq<TlvView>, InfoView, Seq<(KeyView, ErrorView)>, Seq<LintView>);

pub open spec fn frame_view<'a>(f: FrameInfo<'a>) -> FrameView {
    (tlvs_view(f.tlvs@), infos_view(f.info@), errors_view(f.errors@), lints_view(f.lints@))
}

/// The result for a list of TLVs.
pub open spec fn frame_spec(reg: Map<KeyView, Parser>, linters: Seq<Linter>, tlvs: Seq<TlvView>) -> FrameView {
    let (info, errors, lints) = decode_tlvs(reg, tlvs);
    (tlvs, info, errors, lints + linters_spec(linters, info))
}

/// The key of a standard LLDP type, with no prefix.
pub open spec fn type_key(t: u8) -> KeyView {
    (t, Seq::<u8>::empty())
}

/// The key of an HTIP machine-information field.
pub open spec fn field_key(id: u8) -> KeyView {
    htip_key(seq![1u8, id])
}

/// The key of an HTIP subtype.
pub open spec fn subtype_key(subtype: u8) -> KeyView {
    htip_key(seq![subtype])
}

pub open spec fn is_sized_text(p: Parser, max: nat) -> bool {
    match p {
        Parser::SizedText(t) => t.max() == max,
        _ => false,
    }
}

pub open spec fn is_percentage(p: Parser) -> bool {
    p is Percentage
}

pub open spec fn is_sized_number(p: Parser, size: NumberSize) -> bool {
    match p {
        Parser::SizedNumber(n) => n.max_size() == size,
        _ => false,
    }
}

/// The fixed catalog of decoders: the standard LLDP fields and the HTIP
/// fields that are handled.
pub open spec fn is_default_catalog(reg: Map<KeyView, Parser>) -> bool {
    &&& reg.dom() == set![
        type_key(0), type_key(1), type_key(2), type_key(3), type_key(4),
        field_key(0x01), field_key(0x02), field_key(0x03), field_key(0x04),
        field_key(0x14), field_key(0x15), field_key(0x16), field_key(0x17),
        field_key(0x18), field_key(0x19), field_key(0x1a), field_key(0x1b),
        field_key(0x32), field_key(0x33), field_key(0x34), field_key(0x35),
        field_key(0x36), field_key(0x50), subtype_key(2), subtype_key(3)
    ]
    &&& reg[type_key(0)] is NoData
    &&& reg[type_key(1)] is TypedData
    &&& reg[type_key(2)] is TypedData
    &&& (match reg[type_key(3)] {
        Parser::Number(n) => n.size() == NumberSize::Two,
        _ => false,
    })
    &&& (match reg[type_key(4)] {
        Parser::Text(t) => t.max() == 255,
        _ => false,
    })
    &&& is_sized_text(reg[field_key(0x01)], 255)
    &&& (match reg[field_key(0x02)] {
        Parser::ExactlySizedText(t) => t.size() == 6,
        _ => false,
    })
    &&& is_sized_text(reg[field_key(0x03)], 31)
    &&& is_sized_text(reg[field_key(0x04)], 31)
    &&& is_percentage(reg[field_key(0x14)])
    &&& is_percentage(reg[field_key(0x15)])
    &&& is_percentage(reg[field_key(0x16)])
    &&& is_sized_number(reg[field_key(0x17)], NumberSize::Six)
    &&& is_sized_number(reg[field_key(0x18)], NumberSize::One)
    &&& is_sized_number(reg[field_key(0x19)], NumberSize::One)
    &&& is_sized_number(reg[field_key(0x1a)], NumberSize::One)
    &&& is_sized_number(reg[field_key(0x1b)], NumberSize::One)
    &&& is_sized_text(reg[field_key(0x32)], 63)
    &&& is_percentage(reg[field_key(0x33)])
    &&& is_percentage(reg[field_key(0x34)])
    &&& is_percentage(reg[field_key(0x35)])
    &&& is_percentage(reg[field_key(0x36)])
    &&& is_sized_number(reg[field_key(0x50)], NumberSize::Two)
    &&& reg[subtype_key(2)] is Connections
    &&& reg[subtype_key(3)] is Mac
}

/// The linters that run on every frame: End TLV presence, allowed
/// characters, and ChassisID consistency.
pub open spec fn default_lints(info: InfoView) -> Seq<LintView> {
    end_tlv_spec(info) + invalid_chars_spec(default_whitelists(), info) + chassis_spec(info)
}

/// Keys of different catalog fields never match the same TLV, and are
/// different keys.
proof fn lemma_catalog_keys()
    ensures
        forall|a: u8, b: u8| a != b ==> #[trigger] keys_compatible(field_key(a), field_key(b)),
        forall|a: u8, b: u8| a != b ==> #[trigger] keys_compatible(subtype_key(a), subtype_key(b)),
        forall|a: u8, b: u8| b != 1 ==> #[trigger] keys_compatible(field_key(a), subtype_key(b)),
        forall|a: u8, b: u8| a != 1 ==> #[trigger] keys_compatible(subtype_key(a), field_key(b)),
        forall|t: u8, p: Seq<u8>| t != 127 ==> #[trigger] keys_compatible(type_key(t), (127u8, p)),
        forall|t: u8, p: Seq<u8>| t != 127 ==> #[trigger] keys_compatible((127u8, p), type_key(t)),
        forall|a: u8, b: u8| #[trigger] field_key(a) == #[trigger] field_key(b) ==> a == b,
        forall|a: u8, b: u8| #[trigger] subtype_key(a) == #[trigger] subtype_key(b) ==> a == b,
        forall|a: u8, b: u8| b != 1 ==> #[trigger] field_key(a) != #[trigger] subtype_key(b),
{
    assert forall|a: u8, b: u8| a != b implies #[trigger] keys_compatible(field_key(a), field_key(b)) by {
        assert(field_key(a).1[4] != field_key(b).1[4]);
    }
    assert forall|a: u8, b: u8| a != b implies #[trigger] keys_compatible(subtype_key(a), subtype_key(b)) by {
        assert(subtype_key(a).1[3] != subtype_key(b).1[3]);
    }
    assert forall|a: u8, b: u8| b != 1 implies #[trigger] keys_compatible(field_key(a), subtype_key(b)) by {
        assert(field_key(a).1[3] != subtype_key(b).1[3]);
    }
    assert forall|a: u8, b: u8| a != 1 implies #[trigger] keys_compatible(subtype_key(a), field_key(b)) by {
        assert(field_key(b).1[3] != subtype_key(a).1[3]);
    }
    assert forall|a: u8, b: u8| #[trigger] field_key(a) == #[trigger] field_key(b) implies a == b by {
        assert(field_key(a).1[4] == field_key(b).1[4]);
    }
    assert forall|a: u8, b: u8| #[trigger] subtype_key(a) == #[trigger] subtype_key(b) implies a == b by {
        assert(subtype_key(a).1[3] == subtype_key(b).1[3]);
    }
    assert forall|a: u8, b: u8| b != 1 implies #[trigger] field_key(a) != #[trigger] subtype_key(b) by {
        if field_key(a) == subtype_key(b) {
            assert(field_key(a).1[3] == subtype_key(b).1[3]);
        }
    }
}

/// The result of decoding a frame, as values.
pub open spec fn outcome_view<'a>(r: Result<FrameInfo<'a>, InvalidFrame<'a>>) -> Result<FrameView, (Seq<TlvView>, Seq<u8>)> {
    match r {
        Ok(f) => Ok(frame_view(f)),
        Err(e) => Err((tlvs_view(e.tlvs@), e.pointer@)),
    }
}

/// The key that a frame-level failure is reported under.
pub open spec fn frame_error_key() -> KeyView {
    (0u8, Seq::<u8>::empty())
}

impl<'a> InvalidFrame<'a> {
    /// Decodes the TLVs read before the failure, and reports the failure
    /// as an error after those of the TLVs.
    pub fn parse(self, dispatcher: &Dispatcher) -> (r: FrameInfo<'a>)
        requires
            dispatcher.wf(),
        ensures
            ({
                let f = frame_spec(dispatcher.registry(), dispatcher.linters(), tlvs_view(self.tlvs@));
                frame_view(r) == (f.0, f.1, f.2.push((frame_error_key(), ErrorView::InvalidFrame(self.pointer@))), f.3)
            }),
    {
        let mut fi = dispatcher.parse_tlvs(self.tlvs);
        let ghost prev = fi.errors@;
        let key = TlvKey::new(0, Vec::new());
        assert(key@ =~= frame_error_key());
        fi.errors.push((key, ParsingError::InvalidFrame(self.pointer)));
        assert(errors_view(fi.errors@) =~= errors_view(prev).push((frame_error_key(), ErrorView::InvalidFrame(self.pointer@))));
        fi
    }
}

/// The decoders and linters of HTIP frames.
pub struct Dispatcher {
    parsers: Storage<Parser>,
    linters: Vec<Linter>,
}

impl Dispatcher {
    pub closed spec fn wf(&self) -> bool {
        self.parsers.wf()
    }

    /// The registered decoders, by key.
    pub closed spec fn registry(&self) -> Map<KeyView, Parser> {
        self.parsers@
    }

    /// The registered linters, in order.
    pub closed spec fn linters(&self) -> Seq<Linter> {
        self.linters@
    }

    fn add_parser(&mut self, tlv_type: TlvType, key: Vec<u8>, parser: Parser)
        requires
            old(self).wf(),
            !old(self).registry().contains_key((tlv_type.byte(), key@)),
            forall|k: KeyView|
                old(self).registry().contains_key(k) ==> keys_compatible(k, (tlv_type.byte(), key@)),
        ensures
            final(self).wf(),
            final(self).registry() == old(self).registry().insert((tlv_type.byte(), key@), parser),
            final(self).linters() == old(self).linters(),
    {
        let key = ParserKey::new(tlv_type.as_byte(), key);
        let previous = self.parsers.insert(key, parser);
        assert(previous is None);
    }

    fn add_htip_parser(&mut self, key: Vec<u8>, parser: Parser)
        requires
            old(self).wf(),
            !old(self).registry().contains_key(htip_key(key@)),
            forall|k: KeyView| old(self).registry().contains_key(k) ==> keys_compatible(k, htip_key(key@)),
        ensures
            final(self).wf(),
            final(self).registry() == old(self).registry().insert(htip_key(key@), parser),
            final(self).linters() == old(self).linters(),
    {
        let prefix = ParserKey::htip(key).prefix;
        self.add_parser(TlvType::Custom, prefix, parser);
    }

    fn empty() -> (r: Self)
        ensures
            r.wf(),
            r.registry() == Map::<KeyView, Parser>::empty(),
            r.linters() == Seq::<Linter>::empty(),
    {
        Dispatcher { parsers: Storage::new(), linters: Vec::new() }
    }

    /// Decodes one TLV with the decoder registered for it, or as raw binary
    /// when none is; the lints of the decoding are added to `lints`.
    pub fn parse_tlv_ex<'a, 's>(&self, tlv: &'a TLV<'s>, lints: &mut Vec<LintEntry>) -> (r: (
        ParserKey,
        Result<ParseData, ParsingError<'s>>,
    ))
        requires
            self.wf(),
        ensures
            r.0@ == decode_tlv(self.registry(), tlv@).0,
            result_view(r.1) == decode_tlv(self.registry(), tlv@).1,
            lints_view(final(lints)@) == lints_view(old(lints)@) + decode_tlv(self.registry(), tlv@).2,
    {
        let ghost reg = self.registry();
        let ghost code = tlv@.0.byte();
        match self.parsers.key_of(tlv) {
            Some(key) => {
                proof {
                    let k = choose|k: KeyView| reg.contains_key(k) && key_matches(k, code, tlv@.2);
                    if k != key@ {
                        self.parsers.lemma_compatible(k, key@);
                        crate::subkeys::lemma_match_unique(k, key@, code, tlv@.2);
                    }
                }
                let skip = key.prefix.len();
                let parser = self.parsers.get(&key).unwrap();
                let value = tlv.value();
                let mut context = Context::new(vstd::slice::slice_subrange(value, skip, value.len()));
                let res = parser.parse(&mut context);
                let left = context.get().len();
                let ghost prev = old(lints)@;
                if res.is_ok() && left != 0 {
                    let entry = LintEntry::new(Lint::Warning(2)).with_tlv(key.duplicate()).with_extra_info(
                        extra_bytes_text(left),
                    );
                    lints.push(entry);
                    assert(lints_view(lints@) =~= lints_view(prev) + decode_tlv(reg, tlv@).2);
                } else {
                    assert(lints_view(lints@) =~= lints_view(prev) + decode_tlv(reg, tlv@).2);
                }
                (key, res)
            },
            None => {
                let key = TlvKey::new(tlv.tlv_type().as_byte(), Vec::new());
                let ghost prev = old(lints)@;
                lints.push(LintEntry::new(Lint::Warning(3)).with_tlv(key.duplicate()));
                proof {
                    assert(key@ =~= (code, Seq::<u8>::empty()));
                    assert(lints_view(lints@) =~= lints_view(prev) + decode_tlv(reg, tlv@).2);
                }
                let mut context = Context::new(tlv.value());
                let res = AnyBinary.parse(&mut context);
                (key, res)
            },
        }
    }

    /// Decodes one TLV, as [Dispatcher::parse_tlv_ex] does, without the lints.
    pub fn parse_tlv<'a, 's>(&self, tlv: &'a TLV<'s>) -> (r: (ParserKey, Result<ParseData, ParsingError<'s>>))
        requires
            self.wf(),
        ensures
            r.0@ == decode_tlv(self.registry(), tlv@).0,
            result_view(r.1) == decode_tlv(self.registry(), tlv@).1,
    {
        let mut lints: Vec<LintEntry> = Vec::new();
        self.parse_tlv_ex(tlv, &mut lints)
    }

    /// Runs every linter, in order, over the decoded entries.
    pub fn lint(&self, info: &[InfoEntry]) -> (r: Vec<LintEntry>)
        ensures
            lints_view(r@) == linters_spec(self.linters(), infos_view(info@)),
    {
        let mut res: Vec<LintEntry> = Vec::new();
        let mut i: usize = 0;
        assert(self.linters@.take(0) =~= Seq::<Linter>::empty());
        assert(lints_view(res@) =~= Seq::<LintView>::empty());
        while i < self.linters.len()
            invariant
                i <= self.linters@.len(),
                lints_view(res@) == linters_spec(self.linters@.take(i as int), infos_view(info@)),
            decreases self.linters@.len() - i,
        {
            let mut found = self.linters[i].lint(info);
            let ghost prev = res@;
            let ghost more = found@;
            res.append(&mut found);
            proof {
                assert(self.linters@.take(i + 1).drop_last() =~= self.linters@.take(i as int));
                assert(lints_view(res@) =~= lints_view(prev) + lints_view(more));
            }
            i = i + 1;
        }
        assert(self.linters@.take(i as int) =~= self.linters@);
        res
    }

    /// Decodes and lints TLVs that were already segmented.
    fn parse_tlvs<'a>(&self, tlvs: Vec<TLV<'a>>) -> (r: FrameInfo<'a>)
        requires
            self.wf(),
        ensures
            frame_view(r) == frame_spec(self.registry(), self.linters(), tlvs_view(tlvs@)),
    {
        let ghost reg = self.registry();
        let mut lints: Vec<LintEntry> = Vec::new();
        let mut info: Vec<InfoEntry> = Vec::new();
        let mut errors: Vec<ErrorEntry<'a>> = Vec::new();
        let mut i: usize = 0;
        proof {
            assert(tlvs_view(tlvs@).take(0) =~= Seq::<TlvView>::empty());
            assert(infos_view(info@) =~= Seq::<(KeyView, DataView)>::empty());
            assert(errors_view(errors@) =~= Seq::<(KeyView, ErrorView)>::empty());
            assert(lints_view(lints@) =~= Seq::<LintView>::empty());
        }
        while i < tlvs.len()
            invariant
                self.wf(),
                reg == self.registry(),
                i <= tlvs@.len(),
                (infos_view(info@), errors_view(errors@), lints_view(lints@)) == decode_tlvs(
                    reg,
                    tlvs_view(tlvs@).take(i as int),
                ),
            decreases tlvs@.len() - i,
        {
            let (key, res) = self.parse_tlv_ex(&tlvs[i], &mut lints);
            proof {
                assert(tlvs_view(tlvs@).take(i + 1).drop_last() =~= tlvs_view(tlvs@).take(i as int));
                assert(tlvs_view(tlvs@).take(i + 1).last() == tlvs@[i as int]@);
            }
            match res {
                Ok(d) => {
                    let ghost prev = info@;
                    info.push((key, d));
                    assert(infos_view(info@) =~= infos_view(prev).push((key@, d@)));
                },
                Err(e) => {
                    let ghost prev = errors@;
                    errors.push((key, e));
                    assert(errors_view(errors@) =~= errors_view(prev).push((key@, e@)));
                },
            }
            i = i + 1;
        }
        assert(tlvs_view(tlvs@).take(i as int) =~= tlvs_view(tlvs@));
        let mut linted = self.lint(info.as_slice());
        let ghost before = lints@;
        let ghost more = linted@;
        lints.append(&mut linted);
        assert(lints_view(lints@) =~= lints_view(before) + lints_view(more));
        FrameInfo { tlvs, info, errors, lints }
    }

    /// What decoding a frame gives: the result for its TLVs, or the TLVs
    /// read before a stretch that could not be read, and that stretch.
    pub open spec fn parse_spec(&self, frame: Seq<u8>) -> Result<FrameView, (Seq<TlvView>, Seq<u8>)> {
        let (tlvs, rest) = segment(frame);
        if rest.len() == 0 {
            Ok(frame_spec(self.registry(), self.linters(), tlvs))
        } else {
            Err((tlvs, rest))
        }
    }

    /// Decodes the given frame into its [FrameInfo]; a frame with a stretch
    /// that cannot be read as a TLV gives an [InvalidFrame].
    pub fn parse<'a>(&self, frame: &'a [u8]) -> (r: Result<FrameInfo<'a>, InvalidFrame<'a>>)
        requires
            self.wf(),
        ensures
            outcome_view(r) == self.parse_spec(frame@),
    {
        match parse_frame(frame) {
            Ok(tlvs) => Ok(self.parse_tlvs(tlvs)),
            Err(e) => Err(e),
        }
    }

    fn add_type_parser(&mut self, t: u8, parser: Parser)
        requires
            old(self).wf(),
            t != 127,
            !old(self).registry().contains_key(type_key(t)),
            forall|k: KeyView| old(self).registry().contains_key(k) ==> keys_compatible(k, type_key(t)),
        ensures
            final(self).wf(),
            final(self).registry() == old(self).registry().insert(type_key(t), parser),
            final(self).linters() == old(self).linters(),
    {
        let key: Vec<u8> = Vec::new();
        assert(key@ =~= type_key(t).1);
        self.add_parser(TlvType::from(t), key, parser);
    }

    fn add_field_parser(&mut self, id: u8, parser: Parser)
        requires
            old(self).wf(),
            !old(self).registry().contains_key(field_key(id)),
            forall|k: KeyView| old(self).registry().contains_key(k) ==> keys_compatible(k, field_key(id)),
        ensures
            final(self).wf(),
            final(self).registry() == old(self).registry().insert(field_key(id), parser),
            final(self).linters() == old(self).linters(),
    {
        let key: Vec<u8> = vec![1u8, id];
        assert(key@ =~= seq![1u8, id]);
        self.add_htip_parser(key, parser);
    }

    fn add_subtype_parser(&mut self, subtype: u8, parser: Parser)
        requires
            old(self).wf(),
            !old(self).registry().contains_key(subtype_key(subtype)),
            forall|k: KeyView|
                old(self).registry().contains_key(k) ==> keys_compatible(k, subtype_key(subtype)),
        ensures
            final(self).wf(),
            final(self).registry() == old(self).registry().insert(subtype_key(subtype), parser),
            final(self).linters() == old(self).linters(),
    {
        let key: Vec<u8> = vec![subtype];
        assert(key@ =~= seq![subtype]);
        self.add_htip_parser(key, parser);
    }

    /// Create a new Dispatcher instance
    pub fn new() -> (r: Self)
        ensures
            r.wf(),
            is_default_catalog(r.registry()),
            forall|info: InfoView| linters_spec(r.linters(), info) == default_lints(info),
    {
        proof {
            lemma_catalog_keys();
        }
        let mut instance = Dispatcher::empty();
        instance.add_type_parser(0, Parser::NoData(NoData));
        instance.add_type_parser(1, Parser::TypedData(TypedData::new()));
        instance.add_type_parser(2, Parser::TypedData(TypedData::new()));
        instance.add_type_parser(3, Parser::Number(Number::new(NumberSize::Two)));
        //no formatting, the value is the text up to its maximum size
        instance.add_type_parser(4, Parser::Text(Text::new(255)));
        //the first byte states the length (at most 255)
        instance.add_field_parser(0x01, Parser::SizedText(SizedText::new(255)));
        //the length is exactly 6
        instance.add_field_parser(0x02, Parser::ExactlySizedText(SizedText::exact(6)));
        //the first byte states the length (at most 31)
        instance.add_field_parser(0x03, Parser::SizedText(SizedText::new(31)));
        instance.add_field_parser(0x04, Parser::SizedText(SizedText::new(31)));
        instance.add_field_parser(0x14, Parser::Percentage(Percentage::new()));
        instance.add_field_parser(0x15, Parser::Percentage(Percentage::new()));
        instance.add_field_parser(0x16, Parser::Percentage(Percentage::new()));
        instance.add_field_parser(0x17, Parser::SizedNumber(SizedNumber::new(NumberSize::Six)));
        instance.add_field_parser(0x18, Parser::SizedNumber(SizedNumber::new(NumberSize::One)));
        instance.add_field_parser(0x19, Parser::SizedNumber(SizedNumber::new(NumberSize::One)));
        instance.add_field_parser(0x1a, Parser::SizedNumber(SizedNumber::new(NumberSize::One)));
        instance.add_field_parser(0x1b, Parser::SizedNumber(SizedNumber::new(NumberSize::One)));
        instance.add_field_parser(0x32, Parser::SizedText(SizedText::new(63)));
        instance.add_field_parser(0x33, Parser::Percentage(Percentage::new()));
        instance.add_field_parser(0x34, Parser::Percentage(Percentage::new()));
        instance.add_field_parser(0x35, Parser::Percentage(Percentage::new()));
        instance.add_field_parser(0x36, Parser::Percentage(Percentage::new()));
        instance.add_field_parser(0x50, Parser::SizedNumber(SizedNumber::new(NumberSize::Two)));
        //per-port connections
        instance.add_subtype_parser(2, Parser::Connections(Connections::new()));
        //a list of hardware addresses
        instance.add_subtype_parser(3, Parser::Mac(Mac::new()));
        instance.linters.push(Linter::CheckEndTlv(CheckEndTlv));
        instance.linters.push(Linter::InvalidChars(InvalidChars::new()));
        instance.linters.push(Linter::TLV1Linter(TLV1Linter));
        proof {
            let reg = instance.registry();
            assert(reg.dom() =~= set![
                type_key(0), type_key(1), type_key(2), type_key(3), type_key(4),
                field_key(0x01), field_key(0x02), field_key(0x03), field_key(0x04),
                field_key(0x14), field_key(0x15), field_key(0x16), field_key(0x17),
                field_key(0x18), field_key(0x19), field_key(0x1a), field_key(0x1b),
                field_key(0x32), field_key(0x33), field_key(0x34), field_key(0x35),
                field_key(0x36), field_key(0x50), subtype_key(2), subtype_key(3)
            ]);
            let ls = instance.linters();
            assert forall|info: InfoView| linters_spec(ls, info) == default_lints(info) by {
                reveal_with_fuel(linters_spec, 4);
                assert(ls.drop_last().drop_last().drop_last() =~= Seq::<Linter>::empty());
            }
        }
        instance
    }
}

impl Default for Dispatcher {
    fn default() -> (r: Self)
        ensures
            r.wf(),
            is_default_catalog(r.registry()),
            forall|info: InfoView| linters_spec(r.linters(), info) == default_lints(info),
    {
        Self::new()
    }
}

proof fn lemma_decode_lints_no_end_error(reg: Map<KeyView, Parser>, tlvs: Seq<TlvView>)
    ensures
        count_lint(decode_tlvs(reg, tlvs).2, Lint::Error(1)) == 0,
    decreases tlvs.len(),
{
    if tlvs.len() > 0 {
        lemma_decode_lints_no_end_error(reg, tlvs.drop_last());
        let l = decode_tlv(reg, tlvs.last()).2;
        lemma_count_lint_concat(decode_tlvs(reg, tlvs.drop_last()).2, l, Lint::Error(1));
        lemma_count_lint_small(l[0], Lint::Error(1));
        if l.len() == 1 {
            assert(l =~= seq![l[0]]);
        }
    }
}

/// In the result of a frame, the "No End TLV" error stands exactly once
/// when no TLV decoded or the last decoded entry is not an End TLV, and
/// never otherwise.
pub proof fn lemma_frame_end_tlv_presence(d: &Dispatcher, tlvs: Seq<TlvView>)
    requires
        forall|info: InfoView| linters_spec(d.linters(), info) == default_lints(info),
    ensures
        ({
            let f = frame_spec(d.registry(), d.linters(), tlvs);
            count_lint(f.3, Lint::Error(1)) == if f.1.len() == 0 || f.1.last().0.0 != 0 {
                1nat
            } else {
                0nat
            }
        }),
{
    let (info, errors, lints) = decode_tlvs(d.registry(), tlvs);
    lemma_decode_lints_no_end_error(d.registry(), tlvs);
    lemma_end_tlv_presence(default_whitelists(), info);
    lemma_count_lint_concat(lints, default_lints(info), Lint::Error(1));
}

/// Decoding depends on the dispatcher and the frame alone: two decodings of
/// the same frame by the same dispatcher give the same result.
pub proof fn lemma_parse_idempotent<'a, 'b>(
    d: &Dispatcher,
    frame: Seq<u8>,
    r1: Result<FrameInfo<'a>, InvalidFrame<'a>>,
    r2: Result<FrameInfo<'b>, InvalidFrame<'b>>,
)
    requires
        outcome_view(r1) == d.parse_spec(frame),
        outcome_view(r2) == d.parse_spec(frame),
    ensures
        outcome_view(r1) == outcome_view(r2),
{
}

/// No TLV can be read from fewer than two bytes.
pub proof fn lemma_short_input_has_no_tlv(x: u8)
    ensures
        tlv_at(Seq::<u8>::empty()) is None,
        tlv_at(seq![x]) is None,
{
}

/// A frame made of one complete TLV followed by bytes that hold no complete
/// TLV segments into that TLV alone, with exactly those bytes left over.
pub proof fn lemma_truncated_tail(valid: Seq<u8>, tail: Seq<u8>)
    requires
        tlv_at(valid) is Some,
        2 + tlv_at(valid)->Some_0.1 == valid.len(),
        tail.len() > 0,
        tlv_at(tail) is None,
    ensures
        segment(valid + tail) == (seq![tlv_at(valid)->Some_0], tail),
{
    let s = valid + tail;
    let t = tlv_at(valid)->Some_0;
    assert(s[0] == valid[0] && s[1] == valid[1]);
    assert(s.subrange(2, 2 + t.1 as int) =~= valid.subrange(2, 2 + t.1 as int));
    assert(tlv_at(s) == Some(t));
    assert(s.skip(2 + t.1) =~= tail);
    assert(segment(tail) == (Seq::<TlvView>::empty(), tail));
    assert(seq![t] + Seq::<TlvView>::empty() =~= seq![t]);
}

} // verus!
