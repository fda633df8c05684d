use vstd::prelude::*;
use vstd::utf8::{decode_utf8, valid_utf8};

use crate::{ErrorView, ParsingError};

verus! {

/// A cursor over the bytes of one TLV value that are not consumed yet.
pub struct Context<'a> {
    data: &'a [u8],
}

impl<'a> View for Context<'a> {
    type V = Seq<u8>;

    closed spec fn view(&self) -> Seq<u8> {
        self.data@
    }
}

impl<'a> Context<'a> {
    pub fn new(data: &'a [u8]) -> (r: Self)
        ensures
            r@ == data@,
    {
        Context { data }
    }

    pub fn set(&mut self, data: &'a [u8])
        ensures
            final(self)@ == data@,
    {
        self.data = data;
    }

    pub fn get(&mut self) -> (r: &'a [u8])
        ensures
            r@ == old(self)@,
            final(self)@ == old(self)@,
    {
        self.data
    }

    /// Moves the cursor past its first `n` bytes.
    fn advance(&mut self, n: usize)
        requires
            n <= old(self)@.len(),
        ensures
            final(self)@ == old(self)@.skip(n as int),
    {
        let len = self.data.len();
        self.data = vstd::slice::slice_subrange(self.data, n, len);
    }
}

/// A 6-byte hardware address.
#[derive(Debug, Clone, Copy, PartialEq, Eq)]
pub struct MacAddr {
    octets: [u8; 6],
}

impl View for MacAddr {
    type V = Seq<u8>;

    closed spec fn view(&self) -> Seq<u8> {
        self.octets@
    }
}

impl MacAddr {
    pub fn new(octets: [u8; 6]) -> (r: MacAddr)
        ensures
            r@ == octets@,
    {
        MacAddr { octets }
    }

    pub fn as_bytes(&self) -> (r: &[u8])
        ensures
            r@ == self@,
    {
        self.octets.as_slice()
    }

    pub fn into_array(self) -> (r: [u8; 6])
        ensures
            r@ == self@,
    {
        self.octets
    }

    /// The broadcast address is all ones.
    pub fn is_broadcast(&self) -> (r: bool)
        ensures
            r == (forall|i: int| 0 <= i < 6 ==> self@[i] == 0xffu8),
    {
        let mut i: usize = 0;
        while i < 6
            invariant
                i <= 6,
                forall|j: int| 0 <= j < i ==> self@[j] == 0xffu8,
            decreases 6 - i,
        {
            if self.octets[i] != 0xff {
                assert(self@[i as int] != 0xffu8);
                return false;
            }
            i = i + 1;
        }
        true
    }
}

/// The view of a list of hardware addresses.
pub open spec fn macs_view(macs: Seq<MacAddr>) -> Seq<Seq<u8>> {
    macs.map_values(|m: MacAddr| m@)
}

/// Information about one port and the addresses connected to it.
#[derive(Debug, Clone)]
pub struct PerPortInfo {
    pub interface: u32,
    pub port: u32,
    pub macs: Vec<MacAddr>,
}

/// The various kinds of decoded HTIP data.
#[derive(Debug, Clone)]
pub enum ParseData {
    /// A number of up to 4 bytes, as well as percentages.
    U32(u32),
    /// A number of up to 8 bytes
    U64(u64),
    /// Textual data
    Text(String),
    /// Raw binary data
    Binary(Vec<u8>),
    /// A list of hardware addresses
    Mac(Vec<MacAddr>),
    /// Per-port connection information
    Connections(PerPortInfo),
    /// A subtype byte and the bytes that follow it
    TypedData(u8, Vec<u8>),
    /// No data (end TLV)
    Null,
}

/// What a [ParseData] holds, with text as characters and bytes as sequences.
pub enum DataView {
    U32(u32),
    U64(u64),
    Text(Seq<char>),
    Binary(Seq<u8>),
    Mac(Seq<Seq<u8>>),
    Connections(u32, u32, Seq<Seq<u8>>),
    TypedData(u8, Seq<u8>),
    Null,
}

impl View for ParseData {
    type V = DataView;

    open spec fn view(&self) -> DataView {
        match self {
            ParseData::U32(v) => DataView::U32(*v),
            ParseData::U64(v) => DataView::U64(*v),
            ParseData::Text(t) => DataView::Text(t@),
            ParseData::Binary(b) => DataView::Binary(b@),
            ParseData::Mac(m) => DataView::Mac(macs_view(m@)),
            ParseData::Connections(p) => DataView::Connections(p.interface, p.port, macs_view(p.macs@)),
            ParseData::TypedData(t, b) => DataView::TypedData(*t, b@),
            ParseData::Null => DataView::Null,
        }
    }
}

impl ParseData {
    pub fn into_u32(self) -> (r: Option<u32>)
        ensures
            r == (match self@ {
                DataView::U32(v) => Some(v),
                _ => None,
            }),
    {
        match self {
            ParseData::U32(v) => Some(v),
            _ => None,
        }
    }

    pub fn into_u64(self) -> (r: Option<u64>)
        ensures
            r == (match self@ {
                DataView::U64(v) => Some(v),
                _ => None,
            }),
    {
        match self {
            ParseData::U64(v) => Some(v),
            _ => None,
        }
    }

    pub fn into_string(self) -> (r: Option<String>)
        ensures
            match self@ {
                DataView::Text(t) => r is Some && r->Some_0@ == t,
                _ => r is None,
            },
    {
        match self {
            ParseData::Text(v) => Some(v),
            _ => None,
        }
    }

    pub fn into_bytes(self) -> (r: Option<Vec<u8>>)
        ensures
            match self@ {
                DataView::Binary(b) => r is Some && r->Some_0@ == b,
                _ => r is None,
            },
    {
        match self {
            ParseData::Binary(v) => Some(v),
            _ => None,
        }
    }

    pub fn into_mac(self) -> (r: Option<Vec<MacAddr>>)
        ensures
            match self@ {
                DataView::Mac(m) => r is Some && macs_view(r->Some_0@) == m,
                _ => r is None,
            },
    {
        match self {
            ParseData::Mac(v) => Some(v),
            _ => None,
        }
    }

    pub fn into_port_info(self) -> (r: Option<PerPortInfo>)
        ensures
            match self@ {
                DataView::Connections(i, p, m) => r is Some && r->Some_0.interface == i
                    && r->Some_0.port == p && macs_view(r->Some_0.macs@) == m,
                _ => r is None,
            },
    {
        match self {
            ParseData::Connections(v) => Some(v),
            _ => None,
        }
    }
}

/// The result of a decoder as values: the decoded data or the error.
pub open spec fn result_view<'s>(r: Result<ParseData, ParsingError<'s>>) -> Result<DataView, ErrorView> {
    match r {
        Ok(d) => Ok(d@),
        Err(e) => Err(e@),
    }
}

/// A decoder call returned `r` and moved the cursor from `before` to `after`
/// as `expected` says: `expected` holds the result and the number of bytes
/// consumed.
pub open spec fn decodes_as<'s>(
    r: Result<ParseData, ParsingError<'s>>,
    before: Seq<u8>,
    after: Seq<u8>,
    expected: (Result<DataView, ErrorView>, nat),
) -> bool {
    &&& expected.1 <= before.len()
    &&& after =~= before.skip(expected.1 as int)
    &&& result_view(r) == expected.0
}

/// The number that bytes spell in big-endian order.
pub open spec fn be_value(s: Seq<u8>) -> nat
    decreases s.len(),
{
    if s.len() == 0 {
        0
    } else {
        (be_value(s.drop_last()) * 256 + s.last()) as nat
    }
}

pub open spec fn pow256(n: nat) -> nat
    decreases n,
{
    if n == 0 {
        1
    } else {
        256 * pow256((n - 1) as nat)
    }
}

proof fn lemma_be_value_bound(s: Seq<u8>)
    ensures
        be_value(s) < pow256(s.len()),
    decreases s.len(),
{
    if s.len() > 0 {
        lemma_be_value_bound(s.drop_last());
        let a = be_value(s.drop_last());
        let p = pow256(s.drop_last().len());
        let b = s.last();
        assert(a * 256 + b < 256 * p) by (nonlinear_arith)
            requires
                a < p,
                b < 256,
        ;
    }
}

proof fn lemma_pow256_monotone(a: nat, b: nat)
    requires
        a <= b,
    ensures
        pow256(a) <= pow256(b),
    decreases b,
{
    if a < b {
        lemma_pow256_monotone(a, (b - 1) as nat);
    }
}

proof fn lemma_pow256_small()
    ensures
        pow256(4) == 0x1_0000_0000,
        pow256(7) == 0x100_0000_0000_0000,
{
    reveal_with_fuel(pow256, 8);
}

/// Reads `s[0..n]` as a big-endian number.
fn read_be(s: &[u8], n: usize) -> (r: u64)
    requires
        n <= s@.len(),
        n <= 8,
    ensures
        r as nat == be_value(s@.take(n as int)),
{
    let mut acc: u64 = 0;
    let mut i: usize = 0;
    while i < n
        invariant
            i <= n,
            n <= s@.len(),
            n <= 8,
            acc as nat == be_value(s@.take(i as int)),
        decreases n - i,
    {
        proof {
            lemma_be_value_bound(s@.take(i as int));
            lemma_pow256_monotone(i as nat, 7);
            lemma_pow256_small();
            assert(s@.take(i + 1).drop_last() =~= s@.take(i as int));
        }
        acc = acc * 256 + s[i] as u64;
        i = i + 1;
    }
    acc
}

/// The maximum or exact size of a number, in bytes.
#[derive(Clone, Copy, PartialEq, Eq, Debug, Structural)]
pub enum NumberSize {
    One,
    Two,
    Three,
    Four,
    Five,
    Six,
    Seven,
    Eight,
}

impl NumberSize {
    pub open spec fn spec_bytes(self) -> nat {
        match self {
            NumberSize::One => 1,
            NumberSize::Two => 2,
            NumberSize::Three => 3,
            NumberSize::Four => 4,
            NumberSize::Five => 5,
            NumberSize::Six => 6,
            NumberSize::Seven => 7,
            NumberSize::Eight => 8,
        }
    }

    /// The size in bytes.
    pub fn bytes(&self) -> (r: usize)
        ensures
            r == self.spec_bytes(),
    {
        match self {
            NumberSize::One => 1,
            NumberSize::Two => 2,
            NumberSize::Three => 3,
            NumberSize::Four => 4,
            NumberSize::Five => 5,
            NumberSize::Six => 6,
            NumberSize::Seven => 7,
            NumberSize::Eight => 8,
        }
    }
}

/// A number of `size` bytes or fewer, as 32 bits up to four bytes and as 64 bits above.
pub open spec fn number_view(size: NumberSize, value: nat) -> DataView {
    if size.spec_bytes() <= 4 {
        DataView::U32(value as u32)
    } else {
        DataView::U64(value as u64)
    }
}

/// A length byte, then that many bytes of a big-endian number; the length
/// is at least one and at most the size.
pub open spec fn sized_number_spec(size: NumberSize, s: Seq<u8>) -> (Result<DataView, ErrorView>, nat) {
    if s.len() == 0 || s[0] == 0 {
        (Err(ErrorView::TooShort), 0)
    } else if s[0] > size.spec_bytes() {
        (Err(ErrorView::UnexpectedLength(s[0] as usize)), 0)
    } else if s.len() - 1 < s[0] {
        (Err(ErrorView::TooShort), 0)
    } else {
        (Ok(number_view(size, be_value(s.subrange(1, 1 + s[0])))), 1 + s[0] as nat)
    }
}

/// A decoder for numbers that state their size, up to a maximum size in bytes.
pub struct SizedNumber {
    size: NumberSize,
}

impl SizedNumber {
    pub closed spec fn max_size(&self) -> NumberSize {
        self.size
    }

    pub fn new(size: NumberSize) -> (r: Self)
        ensures
            r.max_size() == size,
    {
        SizedNumber { size }
    }

    fn check_length(expected: usize, actual: usize, remaining: usize) -> (r: Result<(), ParsingError<'static>>)
        ensures
            actual > expected ==> r is Err && r->Err_0@ == ErrorView::UnexpectedLength(actual),
            actual <= expected && remaining < actual ==> r is Err && r->Err_0@ == ErrorView::TooShort,
            actual <= expected && remaining >= actual ==> r is Ok,
    {
        if actual > expected {
            Err(ParsingError::UnexpectedLength(actual))
        } else if remaining < actual {
            Err(ParsingError::TooShort)
        } else {
            Ok(())
        }
    }

    fn data(size: NumberSize, value: u64) -> (r: ParseData)
        requires
            size.spec_bytes() <= 4 ==> value < 0x1_0000_0000,
        ensures
            r@ == number_view(size, value as nat),
    {
        if size.bytes() <= 4 {
            ParseData::U32(value as u32)
        } else {
            ParseData::U64(value)
        }
    }

    pub fn parse<'a, 's>(&self, ctx: &'a mut Context<'s>) -> (r: Result<ParseData, ParsingError<'s>>)
        ensures
            decodes_as(r, old(ctx)@, final(ctx)@, sized_number_spec(self.max_size(), old(ctx)@)),
    {
        let input = ctx.get();
        if input.len() == 0 {
            return Err(ParsingError::TooShort);
        }
        let actual = input[0] as usize;
        if actual == 0 {
            return Err(ParsingError::TooShort);
        }
        let rest = vstd::slice::slice_subrange(input, 1, input.len());
        match SizedNumber::check_length(self.size.bytes(), actual, rest.len()) {
            Err(e) => {
                return Err(e);
            },
            Ok(()) => {},
        }
        let value = read_be(rest, actual);
        proof {
            assert(rest@.take(actual as int) =~= input@.subrange(1, 1 + actual));
            lemma_be_value_bound(rest@.take(actual as int));
            if self.size.spec_bytes() <= 4 {
                lemma_pow256_monotone(actual as nat, 4);
            }
            lemma_pow256_small();
        }
        ctx.advance(actual + 1);
        Ok(SizedNumber::data(self.size, value))
    }
}

/// Relies on String::from_utf8: it succeeds exactly on valid UTF-8, and
/// then holds the characters that the bytes encode.
#[verifier::external_body]
fn text_from_utf8(b: &[u8]) -> (r: Result<String, std::str::Utf8Error>)
    ensures
        r is Ok <==> valid_utf8(b@),
        r is Ok ==> r->Ok_0@ == decode_utf8(b@),
{
    String::from_utf8(b.to_vec()).map_err(|e| e.utf8_error())
}

/// An empty value.
pub open spec fn no_data_spec(s: Seq<u8>) -> (Result<DataView, ErrorView>, nat) {
    if s.len() == 0 {
        (Ok(DataView::Null), 0)
    } else {
        (Err(ErrorView::UnexpectedLength(s.len() as usize)), 0)
    }
}

/// A decoder that accepts only an empty value.
pub struct NoData;

impl NoData {
    pub fn parse<'a, 's>(&self, ctx: &'a mut Context<'s>) -> (r: Result<ParseData, ParsingError<'s>>)
        ensures
            decodes_as(r, old(ctx)@, final(ctx)@, no_data_spec(old(ctx)@)),
    {
        let input = ctx.get();
        if input.len() == 0 {
            Ok(ParseData::Null)
        } else {
            Err(ParsingError::UnexpectedLength(input.len()))
        }
    }
}

/// A subtype byte followed by at least one byte of data; all of it is consumed.
pub open spec fn typed_data_spec(s: Seq<u8>) -> (Result<DataView, ErrorView>, nat) {
    if s.len() < 2 {
        (Err(ErrorView::TooShort), 0)
    } else {
        (Ok(DataView::TypedData(s[0], s.skip(1))), s.len())
    }
}

/// A decoder for a subtype byte and the data that follows it.
pub struct TypedData;

impl TypedData {
    pub fn new() -> (r: Self) {
        TypedData {  }
    }

    pub fn parse<'a, 's>(&self, ctx: &'a mut Context<'s>) -> (r: Result<ParseData, ParsingError<'s>>)
        ensures
            decodes_as(r, old(ctx)@, final(ctx)@, typed_data_spec(old(ctx)@)),
    {
        let input = ctx.get();
        if input.len() < 2 {
            return Err(ParsingError::TooShort);
        }
        let t = input[0];
        let data = vstd::slice::slice_to_vec(vstd::slice::slice_subrange(input, 1, input.len()));
        ctx.advance(input.len());
        Ok(ParseData::TypedData(t, data))
    }
}

/// Exactly `size` bytes of a big-endian number, making up the whole value.
pub open spec fn number_spec(size: NumberSize, s: Seq<u8>) -> (Result<DataView, ErrorView>, nat) {
    if s.len() < size.spec_bytes() {
        (Err(ErrorView::TooShort), 0)
    } else if s.len() > size.spec_bytes() {
        (Err(ErrorView::UnexpectedLength(s.len() as usize)), 0)
    } else {
        (Ok(DataView::U64(be_value(s) as u64)), s.len())
    }
}

/// A decoder for a number of an exact size in bytes.
pub struct Number {
    expected_size: NumberSize,
}

impl Number {
    pub closed spec fn size(&self) -> NumberSize {
        self.expected_size
    }

    pub fn new(expected_size: NumberSize) -> (r: Self)
        ensures
            r.size() == expected_size,
    {
        Number { expected_size }
    }

    fn check_length(&self, len: usize) -> (r: Result<usize, ParsingError<'static>>)
        ensures
            len < self.size().spec_bytes() ==> r is Err && r->Err_0@ == ErrorView::TooShort,
            len > self.size().spec_bytes() ==> r is Err && r->Err_0@ == ErrorView::UnexpectedLength(len),
            len == self.size().spec_bytes() ==> r == Ok::<usize, ParsingError<'static>>(len),
    {
        let self_size = self.expected_size.bytes();
        if len < self_size {
            Err(ParsingError::TooShort)
        } else if len > self_size {
            Err(ParsingError::UnexpectedLength(len))
        } else {
            Ok(len)
        }
    }

    pub fn parse<'a, 's>(&self, ctx: &'a mut Context<'s>) -> (r: Result<ParseData, ParsingError<'s>>)
        ensures
            decodes_as(r, old(ctx)@, final(ctx)@, number_spec(self.size(), old(ctx)@)),
    {
        let input = ctx.get();
        let size = match self.check_length(input.len()) {
            Ok(size) => size,
            Err(e) => {
                return Err(e);
            },
        };
        let value = read_be(input, size);
        assert(input@.take(size as int) =~= input@);
        ctx.advance(size);
        Ok(ParseData::U64(value))
    }
}

/// All remaining bytes, as they are.
pub open spec fn any_binary_spec(s: Seq<u8>) -> (Result<DataView, ErrorView>, nat) {
    (Ok(DataView::Binary(s)), s.len())
}

/// The fallback decoder: takes every remaining byte as raw binary.
pub struct AnyBinary;

impl AnyBinary {
    pub fn parse<'a, 's>(&self, ctx: &'a mut Context<'s>) -> (r: Result<ParseData, ParsingError<'s>>)
        ensures
            decodes_as(r, old(ctx)@, final(ctx)@, any_binary_spec(old(ctx)@)),
    {
        let input = ctx.get();
        let data = vstd::slice::slice_to_vec(input);
        ctx.advance(input.len());
        Ok(ParseData::Binary(data))
    }
}

/// The first position where `key` and `s` differ; meaningful when they differ
/// within the length of `key`.
pub open spec fn first_difference(key: Seq<u8>, s: Seq<u8>) -> int {
    choose|i: int|
        0 <= i < key.len() && key[i] != s[i] && forall|j: int| 0 <= j < i ==> key[j] == s[j]
}

/// The bytes of `key`, in order, at the front of the value.
pub open spec fn fixed_sequence_spec(key: Seq<u8>, s: Seq<u8>) -> (Result<DataView, ErrorView>, nat) {
    if s.len() < key.len() {
        (Err(ErrorView::TooShort), 0)
    } else if s.take(key.len() as int) != key {
        (Err(ErrorView::NotEqual(s.take(first_difference(key, s) + 1))), 0)
    } else {
        (Ok(DataView::Binary(key)), key.len())
    }
}

/// A decoder that expects a fixed sequence of bytes.
pub struct FixedSequence {
    key: Vec<u8>,
}

impl FixedSequence {
    pub closed spec fn key(&self) -> Seq<u8> {
        self.key@
    }

    pub fn new(key: Vec<u8>) -> (r: Self)
        ensures
            r.key() == key@,
    {
        FixedSequence { key }
    }

    pub fn parse<'a, 's>(&self, ctx: &'a mut Context<'s>) -> (r: Result<ParseData, ParsingError<'s>>)
        ensures
            decodes_as(r, old(ctx)@, final(ctx)@, fixed_sequence_spec(self.key(), old(ctx)@)),
    {
        let input = ctx.get();
        let n = self.key.len();
        if input.len() < n {
            return Err(ParsingError::TooShort);
        }
        let mut i: usize = 0;
        while i < n
            invariant
                i <= n,
                n == self.key@.len(),
                n <= input@.len(),
                input@ == old(ctx)@,
                ctx@ == old(ctx)@,
                forall|j: int| 0 <= j < i ==> self.key@[j] == input@[j],
            decreases n - i,
        {
            if self.key[i] != input[i] {
                proof {
                    let k = self.key@;
                    let v = input@;
                    assert(v.take(n as int)[i as int] == v[i as int]);
                    assert(0 <= i < k.len() && k[i as int] != v[i as int] && forall|j: int|
                        0 <= j < i ==> k[j] == v[j]);
                    let c = first_difference(k, v);
                    assert(0 <= c < k.len() && k[c] != v[c] && forall|j: int| 0 <= j < c ==> k[j] == v[j]);
                    if c < i {
                        assert(k[c] == v[c]);
                    }
                    if c > i {
                        assert(k[i as int] == v[i as int]);
                    }
                    assert(c == i);
                    assert(v.subrange(0, i + 1) =~= v.take(c + 1));
                    assert(v.take(n as int) != k);
                }
                return Err(ParsingError::NotEqual(vstd::slice::slice_subrange(input, 0, i + 1)));
            }
            i = i + 1;
        }
        assert(input@.take(n as int) =~= self.key@);
        let data = self.key.clone();
        assert(data@ =~= self.key@);
        ctx.advance(n);
        Ok(ParseData::Binary(data))
    }
}

/// A decoder used in tests: consumes a given number of bytes and reports that number.
pub struct Dummy(pub u32);

impl Dummy {
    pub fn parse<'a, 's>(&self, ctx: &'a mut Context<'s>) -> (r: Result<ParseData, ParsingError<'s>>)
        requires
            self.0 <= old(ctx)@.len(),
        ensures
            decodes_as(r, old(ctx)@, final(ctx)@, (Ok(DataView::U32(self.0)), self.0 as nat)),
    {
        ctx.advance(self.0 as usize);
        Ok(ParseData::U32(self.0))
    }
}

/// Text taken from the front of the value, up to `max` bytes.
pub open spec fn text_spec(max: nat, s: Seq<u8>) -> (Result<DataView, ErrorView>, nat) {
    if s.len() == 0 {
        (Err(ErrorView::TooShort), 0)
    } else {
        let n = if s.len() < max {
            s.len()
        } else {
            max
        };
        if valid_utf8(s.take(n as int)) {
            (Ok(DataView::Text(decode_utf8(s.take(n as int)))), n)
        } else {
            (Err(ErrorView::InvalidText), 0)
        }
    }
}

/// A decoder for text without a length byte, of at most a given size.
pub struct Text {
    max_size: usize,
}

impl Text {
    pub closed spec fn max(&self) -> nat {
        self.max_size as nat
    }

    pub fn new(max_size: u8) -> (r: Self)
        ensures
            r.max() == max_size as nat,
    {
        Text { max_size: max_size as usize }
    }

    pub fn parse<'a, 's>(&self, ctx: &'a mut Context<'s>) -> (r: Result<ParseData, ParsingError<'s>>)
        ensures
            decodes_as(r, old(ctx)@, final(ctx)@, text_spec(self.max(), old(ctx)@)),
    {
        let input = ctx.get();
        if input.len() == 0 {
            return Err(ParsingError::TooShort);
        }
        let n = if input.len() < self.max_size {
            input.len()
        } else {
            self.max_size
        };
        let bytes = vstd::slice::slice_subrange(input, 0, n);
        match text_from_utf8(bytes) {
            Err(err) => Err(ParsingError::InvalidText(err)),
            Ok(text) => {
                ctx.advance(n);
                Ok(ParseData::Text(text))
            },
        }
    }
}

/// A length byte of at most `max`, then that many bytes of UTF-8 text.
pub open spec fn sized_text_spec(max: nat, s: Seq<u8>) -> (Result<DataView, ErrorView>, nat) {
    if s.len() == 0 {
        (Err(ErrorView::TooShort), 0)
    } else if s[0] > max {
        (Err(ErrorView::UnexpectedLength(s[0] as usize)), 0)
    } else if s.len() - 1 < s[0] {
        (Err(ErrorView::TooShort), 0)
    } else if valid_utf8(s.subrange(1, 1 + s[0])) {
        (Ok(DataView::Text(decode_utf8(s.subrange(1, 1 + s[0])))), 1 + s[0] as nat)
    } else {
        (Err(ErrorView::InvalidText), 0)
    }
}

/// A decoder for text that states its length, up to a maximum.
pub struct SizedText {
    max_size: usize,
}

impl SizedText {
    pub closed spec fn max(&self) -> nat {
        self.max_size as nat
    }

    pub fn new(max_size: usize) -> (r: Self)
        ensures
            r.max() == max_size as nat,
    {
        SizedText { max_size }
    }

    pub fn exact(size: usize) -> (r: ExactlySizedText)
        ensures
            r.size() == size as nat,
    {
        ExactlySizedText { inner: SizedText::new(size), exact_size: size }
    }

    fn check_max_size<'a>(max: usize, actual: usize) -> (r: Result<(), ParsingError<'a>>)
        ensures
            actual <= max ==> r is Ok,
            actual > max ==> r is Err && r->Err_0@ == ErrorView::UnexpectedLength(actual),
    {
        if actual <= max {
            Ok(())
        } else {
            Err(ParsingError::UnexpectedLength(actual))
        }
    }

    fn check_input_size<'a>(needed: usize, input: &[u8]) -> (r: Result<(), ParsingError<'a>>)
        ensures
            needed <= input@.len() ==> r is Ok,
            needed > input@.len() ==> r is Err && r->Err_0@ == ErrorView::TooShort,
    {
        if needed <= input.len() {
            Ok(())
        } else {
            Err(ParsingError::TooShort)
        }
    }

    pub fn parse<'a, 's>(&self, ctx: &'a mut Context<'s>) -> (r: Result<ParseData, ParsingError<'s>>)
        ensures
            decodes_as(r, old(ctx)@, final(ctx)@, sized_text_spec(self.max(), old(ctx)@)),
    {
        let input = ctx.get();
        if input.len() == 0 {
            return Err(ParsingError::TooShort);
        }
        let text_size = input[0] as usize;
        if let Err(e) = SizedText::check_max_size(self.max_size, text_size) {
            return Err(e);
        }
        let rest = vstd::slice::slice_subrange(input, 1, input.len());
        if let Err(e) = SizedText::check_input_size(text_size, rest) {
            return Err(e);
        }
        let bytes = vstd::slice::slice_subrange(input, 1, text_size + 1);
        match text_from_utf8(bytes) {
            Err(error) => Err(ParsingError::InvalidText(error)),
            Ok(text) => {
                ctx.advance(text_size + 1);
                Ok(ParseData::Text(text))
            },
        }
    }
}

/// A length byte equal to `size`, then that many bytes of UTF-8 text.
pub open spec fn exact_text_spec(size: nat, s: Seq<u8>) -> (Result<DataView, ErrorView>, nat) {
    if s.len() == 0 {
        (Err(ErrorView::TooShort), 0)
    } else if s[0] != size {
        (Err(ErrorView::UnexpectedLength(s[0] as usize)), 0)
    } else {
        sized_text_spec(size, s)
    }
}

/// A decoder for text whose stated length must equal a given size.
pub struct ExactlySizedText {
    inner: SizedText,
    exact_size: usize,
}

impl ExactlySizedText {
    #[verifier::type_invariant]
    spec fn inner_matches(&self) -> bool {
        self.inner.max_size == self.exact_size
    }

    pub closed spec fn size(&self) -> nat {
        self.exact_size as nat
    }

    fn check_exact_size<'a>(expected: usize, actual: usize) -> (r: Result<(), ParsingError<'a>>)
        ensures
            actual == expected ==> r is Ok,
            actual != expected ==> r is Err && r->Err_0@ == ErrorView::UnexpectedLength(actual),
    {
        if actual == expected {
            Ok(())
        } else {
            Err(ParsingError::UnexpectedLength(actual))
        }
    }

    pub fn parse<'a, 's>(&self, ctx: &'a mut Context<'s>) -> (r: Result<ParseData, ParsingError<'s>>)
        ensures
            decodes_as(r, old(ctx)@, final(ctx)@, exact_text_spec(self.size(), old(ctx)@)),
    {
        proof {
            use_type_invariant(self);
        }
        let input = ctx.get();
        if input.len() == 0 {
            return Err(ParsingError::TooShort);
        }
        let text_size = input[0] as usize;
        if let Err(e) = ExactlySizedText::check_exact_size(self.exact_size, text_size) {
            return Err(e);
        }
        self.inner.parse(ctx)
    }
}

/// A length byte of one, then a value from 0 to 100.
pub open spec fn percentage_spec(s: Seq<u8>) -> (Result<DataView, ErrorView>, nat) {
    if s.len() < 2 {
        (Err(ErrorView::TooShort), 0)
    } else if s[0] != 1 {
        (Err(ErrorView::UnexpectedLength(s[0] as usize)), 0)
    } else if s[1] > 100 {
        (Err(ErrorView::InvalidPercentage(s[1])), 0)
    } else {
        (Ok(DataView::U32(s[1] as u32)), 2)
    }
}

/// A decoder for a percentage.
pub struct Percentage;

impl Percentage {
    pub fn new() -> (r: Self) {
        Percentage {  }
    }

    pub fn parse<'a, 's>(&self, ctx: &'a mut Context<'s>) -> (r: Result<ParseData, ParsingError<'s>>)
        ensures
            decodes_as(r, old(ctx)@, final(ctx)@, percentage_spec(old(ctx)@)),
    {
        let input = ctx.get();
        if input.len() < 2 {
            return Err(ParsingError::TooShort);
        }
        let size = input[0] as usize;
        if size != 1 {
            return Err(ParsingError::UnexpectedLength(size));
        }
        let val = input[1];
        if val > 100 {
            Err(ParsingError::InvalidPercentage(val))
        } else {
            ctx.advance(2);
            Ok(ParseData::U32(val as u32))
        }
    }
}

/// The `n` consecutive 6-byte groups at the front of `b`.
pub open spec fn mac_chunks(b: Seq<u8>, n: nat) -> Seq<Seq<u8>> {
    Seq::new(n, |i: int| b.subrange(6 * i, 6 * i + 6))
}

/// A count byte, then that many 6-byte hardware addresses.
pub open spec fn mac_spec(s: Seq<u8>) -> (Result<DataView, ErrorView>, nat) {
    if s.len() == 0 {
        (Err(ErrorView::TooShort), 0)
    } else if s.len() - 1 < 6 * s[0] {
        (Err(ErrorView::TooShort), 0)
    } else {
        (Ok(DataView::Mac(mac_chunks(s.skip(1), s[0] as nat))), 1 + 6 * s[0] as nat)
    }
}

/// A count of three followed by eighteen bytes gives the three addresses in
/// order, and consumes all nineteen bytes.
pub proof fn lemma_three_addresses(s: Seq<u8>)
    requires
        s.len() >= 19,
        s[0] == 3,
    ensures
        mac_spec(s) == (
            Ok::<DataView, ErrorView>(
                DataView::Mac(seq![s.subrange(1, 7), s.subrange(7, 13), s.subrange(13, 19)]),
            ),
            19nat,
        ),
{
    let b = s.skip(1);
    assert(b.subrange(0, 6) =~= s.subrange(1, 7));
    assert(b.subrange(6, 12) =~= s.subrange(7, 13));
    assert(b.subrange(12, 18) =~= s.subrange(13, 19));
    assert(mac_chunks(b, 3) =~= seq![s.subrange(1, 7), s.subrange(7, 13), s.subrange(13, 19)]);
}

/// A decoder for a counted list of hardware addresses.
pub struct Mac;

impl Mac {
    pub fn new() -> (r: Self) {
        Mac {  }
    }

    pub fn parse<'a, 's>(&self, ctx: &'a mut Context<'s>) -> (r: Result<ParseData, ParsingError<'s>>)
        ensures
            decodes_as(r, old(ctx)@, final(ctx)@, mac_spec(old(ctx)@)),
    {
        let input = ctx.get();
        if input.len() == 0 {
            return Err(ParsingError::TooShort);
        }
        let num = input[0] as usize;
        let rest = vstd::slice::slice_subrange(input, 1, input.len());
        let end = num * 6;
        if rest.len() < end {
            return Err(ParsingError::TooShort);
        }
        let mut macs: Vec<MacAddr> = Vec::new();
        let mut i: usize = 0;
        while i < num
            invariant
                i <= num,
                end == num * 6,
                end <= rest@.len(),
                rest@ == input@.skip(1),
                macs_view(macs@) =~= mac_chunks(rest@, i as nat),
            decreases num - i,
        {
            let o = i * 6;
            assert(o + 6 <= end) by (nonlinear_arith)
                requires
                    o == i * 6,
                    i < num,
                    end == num * 6,
            ;
            let m = MacAddr::new([rest[o], rest[o + 1], rest[o + 2], rest[o + 3], rest[o + 4], rest[o + 5]]);
            assert(m@ =~= rest@.subrange(6 * i, 6 * i + 6));
            let ghost before = macs@;
            macs.push(m);
            proof {
                assert(macs_view(macs@) =~= macs_view(before).push(m@));
                assert(mac_chunks(rest@, (i + 1) as nat) =~= mac_chunks(rest@, i as nat).push(
                    rest@.subrange(6 * i, 6 * i + 6),
                ));
            }
            i = i + 1;
        }
        ctx.advance(end + 1);
        Ok(ParseData::Mac(macs))
    }
}

/// The interface, port and addresses of a connections record, read from
/// the values its three parts produced.
pub open spec fn port_info_view(vs: Seq<DataView>) -> DataView {
    if vs.len() == 3 {
        match (vs[0], vs[1], vs[2]) {
            (DataView::U32(i), DataView::U32(p), DataView::Mac(m)) => DataView::Connections(i, p, m),
            _ => DataView::Null,
        }
    } else {
        DataView::Null
    }
}

/// Two numbers of up to four bytes, then a counted list of hardware
/// addresses; the first failing part gives the error.
pub open spec fn connections_spec(s: Seq<u8>) -> (Result<DataView, ErrorView>, nat) {
    let (a, n1) = sized_number_spec(NumberSize::Four, s);
    match a {
        Err(e) => (Err(e), n1),
        Ok(interface) => {
            let (b, n2) = sized_number_spec(NumberSize::Four, s.skip(n1 as int));
            match b {
                Err(e) => (Err(e), n1 + n2),
                Ok(port) => {
                    let (c, n3) = mac_spec(s.skip((n1 + n2) as int));
                    match c {
                        Err(e) => (Err(e), n1 + n2 + n3),
                        Ok(macs) => (Ok(port_info_view(seq![interface, port, macs])), n1 + n2 + n3),
                    }
                },
            }
        },
    }
}

/// The views of a list of decoded values.
pub open spec fn data_views(d: Seq<ParseData>) -> Seq<DataView> {
    d.map_values(|x: ParseData| x@)
}

/// Runs `parts` one after the other on `s`: the values they produced, or
/// the first error, and how many bytes they consumed in all.
pub open spec fn run_parts(parts: Seq<Parser>, s: Seq<u8>) -> (Result<Seq<DataView>, ErrorView>, nat)
    decreases parts.len(),
{
    if parts.len() == 0 {
        (Ok(seq![]), 0)
    } else {
        let (pre, n) = run_parts(parts.drop_last(), s);
        match pre {
            Err(e) => (Err(e), n),
            Ok(vs) => {
                let (last, m) = parts.last().spec_decode(s.skip(n as int));
                match last {
                    Ok(v) => (Ok(vs.push(v)), n + m),
                    Err(e) => (Err(e), n + m),
                }
            },
        }
    }
}

/// Collects a list of decoders that run in order on one cursor.
pub struct CompositeParser {
    parts: Vec<Parser>,
}

impl CompositeParser {
    pub closed spec fn parts(&self) -> Seq<Parser> {
        self.parts@
    }

    pub fn new() -> (r: Self)
        ensures
            r.parts() == Seq::<Parser>::empty(),
    {
        CompositeParser { parts: Vec::new() }
    }

    pub fn with_part(self, part: Parser) -> (r: Self)
        ensures
            r.parts() == self.parts().push(part),
    {
        let mut parts = self.parts;
        parts.push(part);
        CompositeParser { parts }
    }

    /// Completes the decoder with the function that turns the values of the
    /// parts into one value.
    pub fn extractor<F: Fn(Vec<ParseData>) -> ParseData>(self, func: F) -> (r: CompositeParserComplete<F>)
        ensures
            r.parts() == self.parts(),
            r.func() == func,
    {
        CompositeParserComplete { parts: self.parts, func }
    }
}

/// A decoder that runs its parts in order on one cursor and combines
/// their values. A failing part ends the run; what earlier parts consumed
/// stays consumed.
pub struct CompositeParserComplete<F: Fn(Vec<ParseData>) -> ParseData> {
    parts: Vec<Parser>,
    func: F,
}

impl<F: Fn(Vec<ParseData>) -> ParseData> CompositeParserComplete<F> {
    pub closed spec fn parts(&self) -> Seq<Parser> {
        self.parts@
    }

    pub closed spec fn func(&self) -> F {
        self.func
    }

    pub fn parse<'a, 's>(&self, ctx: &'a mut Context<'s>) -> (r: Result<ParseData, ParsingError<'s>>)
        requires
            forall|d: Vec<ParseData>| call_requires(self.func(), (d,)),
        ensures
            run_parts(self.parts(), old(ctx)@).1 <= old(ctx)@.len(),
            final(ctx)@ =~= old(ctx)@.skip(run_parts(self.parts(), old(ctx)@).1 as int),
            run_parts(self.parts(), old(ctx)@).0 is Ok ==> r is Ok && exists|d: Vec<ParseData>|
                data_views(d@) == run_parts(self.parts(), old(ctx)@).0->Ok_0 && #[trigger] call_ensures(
                    self.func(),
                    (d,),
                    r->Ok_0,
                ),
            run_parts(self.parts(), old(ctx)@).0 is Err ==> r is Err && r->Err_0@ == run_parts(
                self.parts(),
                old(ctx)@,
            ).0->Err_0,
    {
        let ghost start = old(ctx)@;
        let ghost mut consumed: nat = 0;
        let mut data: Vec<ParseData> = Vec::new();
        let mut i: usize = 0;
        assert(self.parts@.take(0) =~= Seq::<Parser>::empty());
        assert(data_views(data@) =~= Seq::<DataView>::empty());
        assert(start.skip(0) =~= start);
        while i < self.parts.len()
            invariant
                i <= self.parts@.len(),
                start == old(ctx)@,
                forall|d: Vec<ParseData>| call_requires(self.func(), (d,)),
                run_parts(self.parts@.take(i as int), start) == (
                    Ok::<Seq<DataView>, ErrorView>(data_views(data@)),
                    consumed,
                ),
                consumed <= start.len(),
                ctx@ =~= start.skip(consumed as int),
            decreases self.parts@.len() - i,
        {
            let ghost before = ctx@;
            let part = &self.parts[i];
            proof {
                assert(self.parts@.take(i + 1).drop_last() =~= self.parts@.take(i as int));
                assert(self.parts@.take(i + 1).last() == self.parts@[i as int]);
            }
            let res = part.parse(ctx);
            match res {
                Err(e) => {
                    assert(ctx@ =~= start.skip(run_parts(self.parts@.take(i + 1), start).1 as int));
                    proof {
                        lemma_run_parts_stops(self.parts@, start, (i + 1) as nat);
                    }
                    return Err(e);
                },
                Ok(d) => {
                    let ghost prev = data@;
                    data.push(d);
                    proof {
                        assert(data_views(data@) =~= data_views(prev).push(d@));
                        consumed = consumed + part.spec_decode(before).1;
                        assert(ctx@ =~= start.skip(consumed as int));
                    }
                },
            }
            i = i + 1;
        }
        assert(self.parts@.take(i as int) =~= self.parts@);
        let ghost collected = data;
        assert(call_requires(self.func(), (collected,)));
        let out = (self.func)(data);
        assert(call_ensures(self.func(), (collected,), out));
        let res: Result<ParseData, ParsingError<'s>> = Ok(out);
        assert(data_views(collected@) == run_parts(self.parts(), start).0->Ok_0 && call_ensures(
            self.func(),
            (collected,),
            res->Ok_0,
        ));
        res
    }
}

/// Once a run of parts fails, running more parts changes nothing.
proof fn lemma_run_parts_stops(parts: Seq<Parser>, s: Seq<u8>, k: nat)
    requires
        k <= parts.len(),
        run_parts(parts.take(k as int), s).0 is Err,
    ensures
        run_parts(parts, s) == run_parts(parts.take(k as int), s),
    decreases parts.len() - k,
{
    if k < parts.len() {
        assert(parts.take(k + 1 as int).drop_last() =~= parts.take(k as int));
        lemma_run_parts_stops(parts, s, k + 1);
    } else {
        assert(parts.take(k as int) =~= parts);
    }
}

/// Builds the connections record out of the values of its three parts.
fn per_port_info(data: Vec<ParseData>) -> (r: ParseData)
    ensures
        r@ == port_info_view(data_views(data@)),
{
    let mut data = data;
    if data.len() != 3 {
        return ParseData::Null;
    }
    let ghost all = data@;
    let macs = data.pop().unwrap();
    let port = data.pop().unwrap();
    let interface = data.pop().unwrap();
    assert(all[0] == interface && all[1] == port && all[2] == macs);
    match (interface, port, macs) {
        (ParseData::U32(interface), ParseData::U32(port), ParseData::Mac(macs)) => {
            ParseData::Connections(PerPortInfo { interface, port, macs })
        },
        _ => ParseData::Null,
    }
}

/// A decoder for per-port connection records.
pub struct Connections;

impl Connections {
    pub fn new() -> (r: Self) {
        Connections {  }
    }

    pub fn parse<'a, 's>(&self, ctx: &'a mut Context<'s>) -> (r: Result<ParseData, ParsingError<'s>>)
        ensures
            decodes_as(r, old(ctx)@, final(ctx)@, connections_spec(old(ctx)@)),
    {
        let ghost s = old(ctx)@;
        let number = SizedNumber::new(NumberSize::Four);
        let mut data: Vec<ParseData> = Vec::new();
        let interface = match number.parse(ctx) {
            Ok(d) => d,
            Err(e) => {
                return Err(e);
            },
        };
        let ghost n1 = sized_number_spec(NumberSize::Four, s).1;
        let port = match number.parse(ctx) {
            Ok(d) => d,
            Err(e) => {
                assert(ctx@ =~= s.skip((n1 + sized_number_spec(NumberSize::Four, s.skip(n1 as int)).1) as int));
                return Err(e);
            },
        };
        let ghost n2 = sized_number_spec(NumberSize::Four, s.skip(n1 as int)).1;
        assert(s.skip(n1 as int).skip(n2 as int) =~= s.skip((n1 + n2) as int));
        let macs = match Mac::new().parse(ctx) {
            Ok(d) => d,
            Err(e) => {
                assert(ctx@ =~= s.skip((n1 + n2 + mac_spec(s.skip((n1 + n2) as int)).1) as int));
                return Err(e);
            },
        };
        let ghost n3 = mac_spec(s.skip((n1 + n2) as int)).1;
        assert(ctx@ =~= s.skip((n1 + n2 + n3) as int));
        data.push(interface);
        data.push(port);
        data.push(macs);
        assert(data_views(data@) =~= seq![interface@, port@, macs@]);
        Ok(per_port_info(data))
    }
}

/// The decoders that can be registered for a field, as one closed set.
pub enum Parser {
    NoData(NoData),
    TypedData(TypedData),
    Number(Number),
    SizedNumber(SizedNumber),
    Text(Text),
    SizedText(SizedText),
    ExactlySizedText(ExactlySizedText),
    Percentage(Percentage),
    Mac(Mac),
    Connections(Connections),
    FixedSequence(FixedSequence),
    AnyBinary(AnyBinary),
}

impl Parser {
    /// What the decoder makes of the bytes `s`.
    pub open spec fn spec_decode(self, s: Seq<u8>) -> (Result<DataView, ErrorView>, nat) {
        match self {
            Parser::NoData(_) => no_data_spec(s),
            Parser::TypedData(_) => typed_data_spec(s),
            Parser::Number(p) => number_spec(p.size(), s),
            Parser::SizedNumber(p) => sized_number_spec(p.max_size(), s),
            Parser::Text(p) => text_spec(p.max(), s),
            Parser::SizedText(p) => sized_text_spec(p.max(), s),
            Parser::ExactlySizedText(p) => exact_text_spec(p.size(), s),
            Parser::Percentage(_) => percentage_spec(s),
            Parser::Mac(_) => mac_spec(s),
            Parser::Connections(_) => connections_spec(s),
            Parser::FixedSequence(p) => fixed_sequence_spec(p.key(), s),
            Parser::AnyBinary(_) => any_binary_spec(s),
        }
    }

    /// Decodes a prefix of the cursor's bytes and moves the cursor past it.
    pub fn parse<'a, 's>(&self, ctx: &'a mut Context<'s>) -> (r: Result<ParseData, ParsingError<'s>>)
        ensures
            decodes_as(r, old(ctx)@, final(ctx)@, self.spec_decode(old(ctx)@)),
    {
        match self {
            Parser::NoData(p) => p.parse(ctx),
            Parser::TypedData(p) => p.parse(ctx),
            Parser::Number(p) => p.parse(ctx),
            Parser::SizedNumber(p) => p.parse(ctx),
            Parser::Text(p) => p.parse(ctx),
            Parser::SizedText(p) => p.parse(ctx),
            Parser::ExactlySizedText(p) => p.parse(ctx),
            Parser::Percentage(p) => p.parse(ctx),
            Parser::Mac(p) => p.parse(ctx),
            Parser::Connections(p) => p.parse(ctx),
            Parser::FixedSequence(p) => p.parse(ctx),
            Parser::AnyBinary(p) => p.parse(ctx),
        }
    }
}

} // verus!
