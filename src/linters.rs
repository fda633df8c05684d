use std::cmp::Ordering;

use vstd::prelude::*;

use crate::dispatcher::{htip_key, ParserKey};
use crate::parsers::DataView;
use crate::subkeys::KeyView;
use crate::{infos_view, lints_view, InfoEntry, LintEntry, LintView, TlvKey};

verus! {

/// Type of a lint
#[derive(PartialEq, Eq, Hash, Debug, Clone, Copy, Structural)]
pub enum Lint {
    /// A warning; although irregular, the data can still be used
    Warning(u8),
    /// A clear violation of a rule of the specification
    Error(u8),
}

/// The description of each known lint; others have a placeholder.
pub open spec fn lint_description(l: Lint) -> Seq<char> {
    match l {
        Lint::Error(1) => "No End TLV"@,
        Lint::Warning(1) => "Invalid Characters"@,
        Lint::Error(2) => "Multiple Type 1 TLVs"@,
        Lint::Error(3) => "Invalid MAC in Type 1 TLV"@,
        Lint::Error(4) => "Type 1 TLV is neither MAC nor locally assigned"@,
        _ => "No Description"@,
    }
}

impl Lint {
    /// A human-readable description of the lint.
    pub fn description(&self) -> (r: &'static str)
        ensures
            r@ == lint_description(*self),
    {
        match self {
            Lint::Error(1) => "No End TLV",
            Lint::Warning(1) => "Invalid Characters",
            Lint::Error(2) => "Multiple Type 1 TLVs",
            Lint::Error(3) => "Invalid MAC in Type 1 TLV",
            Lint::Error(4) => "Type 1 TLV is neither MAC nor locally assigned",
            _ => "No Description",
        }
    }
}

/// Decoded entries as values.
pub type InfoView = Seq<(KeyView, DataView)>;

/// An error when there are no entries or the last one is not an End TLV.
pub open spec fn end_tlv_spec(info: InfoView) -> Seq<LintView> {
    if info.len() == 0 || info.last().0.0 != 0 {
        seq![(Lint::Error(1), None::<KeyView>, None::<Seq<char>>)]
    } else {
        Seq::empty()
    }
}

/// Linter that checks that the frame ends with an End TLV.
pub struct CheckEndTlv;

impl CheckEndTlv {
    pub fn lint(&self, info: &[InfoEntry]) -> (r: Vec<LintEntry>)
        ensures
            lints_view(r@) == end_tlv_spec(infos_view(info@)),
    {
        let mut res: Vec<LintEntry> = Vec::new();
        if info.len() == 0 || info[info.len() - 1].0.tlv_type != 0 {
            res.push(LintEntry::new(Lint::Error(1)));
        }
        assert(lints_view(res@) =~= end_tlv_spec(infos_view(info@)));
        res
    }
}

/// The characters with codes from `lo` to `hi`.
pub open spec fn ascii_range(lo: u8, hi: u8) -> Seq<char> {
    Seq::new((hi - lo + 1) as nat, |i: int| ((lo + i) as u8) as char)
}

/// The characters that each text field may hold.
pub open spec fn default_whitelists() -> Seq<(KeyView, Seq<char>)> {
    seq![
        (
            (4u8, Seq::<u8>::empty()),
            " -'()+,./:=?;!*#@$_%"@ + ascii_range(0x61, 0x7a) + ascii_range(0x41, 0x5a)
                + ascii_range(0x30, 0x39),
        ),
        (
            htip_key(seq![1u8, 1u8]),
            ascii_range(0x61, 0x7a) + ascii_range(0x41, 0x5a) + ascii_range(0x30, 0x39)
                + ",-'()+./:=?;!*#@$_%"@,
        ),
        (htip_key(seq![1u8, 2u8]), ascii_range(0x41, 0x46) + ascii_range(0x30, 0x39)),
        (
            htip_key(seq![1u8, 4u8]),
            ascii_range(0x41, 0x5a) + ascii_range(0x30, 0x39) + ",-'()+./:=?;!*#@$_%"@,
        ),
        (
            htip_key(seq![1u8, 0x32u8]),
            ascii_range(0x41, 0x5a) + ascii_range(0x30, 0x39) + ",.?!/*+-"@,
        ),
    ]
}

/// Appends the characters with codes from `lo` to `hi`.
fn push_range(v: &mut Vec<char>, lo: u8, hi: u8)
    requires
        lo <= hi < 128,
    ensures
        final(v)@ == old(v)@ + ascii_range(lo, hi),
{
    let mut b: u8 = lo;
    while b <= hi
        invariant
            lo <= b <= hi + 1,
            hi < 128,
            v@ == old(v)@ + ascii_range(lo, (b - 1) as u8).take((b - lo) as int),
        decreases hi + 1 - b,
    {
        v.push(b as char);
        b = b + 1;
        assert(v@ =~= old(v)@ + ascii_range(lo, (b - 1) as u8).take((b - lo) as int));
    }
    assert(ascii_range(lo, (b - 1) as u8).take((b - lo) as int) =~= ascii_range(lo, hi));
}

/// Appends the characters of a string.
fn push_str(v: &mut Vec<char>, s: &str)
    ensures
        final(v)@ == old(v)@ + s@,
{
    let n = s.unicode_len();
    let mut i: usize = 0;
    while i < n
        invariant
            i <= n,
            n == s@.len(),
            v@ == old(v)@ + s@.take(i as int),
        decreases n - i,
    {
        v.push(s.get_char(i));
        i = i + 1;
        assert(v@ =~= old(v)@ + s@.take(i as int));
    }
    assert(s@.take(i as int) =~= s@);
}

/// The whitelist that a table gives a key: the first entry for the key.
pub open spec fn whitelist(table: Seq<(KeyView, Seq<char>)>, k: KeyView) -> Option<Seq<char>>
    decreases table.len(),
{
    if table.len() == 0 {
        None
    } else if table[0].0 == k {
        Some(table[0].1)
    } else {
        whitelist(table.skip(1), k)
    }
}

/// Some character of `t` is not in `allowed`.
pub open spec fn has_invalid_char(t: Seq<char>, allowed: Seq<char>) -> bool {
    exists|i: int| 0 <= i < t.len() && !allowed.contains(#[trigger] t[i])
}

/// A warning for each text entry, in order, whose key has a whitelist and
/// whose text has a character outside it.
pub open spec fn invalid_chars_spec(table: Seq<(KeyView, Seq<char>)>, info: InfoView) -> Seq<LintView>
    decreases info.len(),
{
    if info.len() == 0 {
        Seq::empty()
    } else {
        let prev = invalid_chars_spec(table, info.drop_last());
        let (k, d) = info.last();
        match (whitelist(table, k), d) {
            (Some(allowed), DataView::Text(t)) => if has_invalid_char(t, allowed) {
                prev.push((Lint::Warning(1), Some(k), None::<Seq<char>>))
            } else {
                prev
            },
            _ => prev,
        }
    }
}

/// Linter that checks text fields for characters outside their whitelist.
pub struct InvalidChars {
    allowed: Vec<(ParserKey, Vec<char>)>,
}

impl InvalidChars {
    pub closed spec fn table(&self) -> Seq<(KeyView, Seq<char>)> {
        self.allowed@.map_values(|e: (ParserKey, Vec<char>)| (e.0@, e.1@))
    }

    pub fn new() -> (r: Self)
        ensures
            r.table() == default_whitelists(),
    {
        let mut type4: Vec<char> = Vec::new();
        push_str(&mut type4, " -'()+,./:=?;!*#@$_%");
        push_range(&mut type4, 0x61, 0x7a);
        push_range(&mut type4, 0x41, 0x5a);
        push_range(&mut type4, 0x30, 0x39);
        let mut category: Vec<char> = Vec::new();
        push_range(&mut category, 0x61, 0x7a);
        push_range(&mut category, 0x41, 0x5a);
        push_range(&mut category, 0x30, 0x39);
        push_str(&mut category, ",-'()+./:=?;!*#@$_%");
        let mut maker: Vec<char> = Vec::new();
        push_range(&mut maker, 0x41, 0x46);
        push_range(&mut maker, 0x30, 0x39);
        let mut model: Vec<char> = Vec::new();
        push_range(&mut model, 0x41, 0x5a);
        push_range(&mut model, 0x30, 0x39);
        push_str(&mut model, ",-'()+./:=?;!*#@$_%");
        let mut status: Vec<char> = Vec::new();
        push_range(&mut status, 0x41, 0x5a);
        push_range(&mut status, 0x30, 0x39);
        push_str(&mut status, ",.?!/*+-");
        let k4 = TlvKey::new(4, Vec::new());
        let k11 = TlvKey::htip(vec![1u8, 1u8]);
        let k12 = TlvKey::htip(vec![1u8, 2u8]);
        let k14 = TlvKey::htip(vec![1u8, 4u8]);
        let k132 = TlvKey::htip(vec![1u8, 0x32u8]);
        proof {
            assert(k4@.1 =~= Seq::<u8>::empty());
            assert(k11@ =~= htip_key(seq![1u8, 1u8]));
            assert(k12@ =~= htip_key(seq![1u8, 2u8]));
            assert(k14@ =~= htip_key(seq![1u8, 4u8]));
            assert(k132@ =~= htip_key(seq![1u8, 0x32u8]));
        }
        let allowed = vec![(k4, type4), (k11, category), (k12, maker), (k14, model), (k132, status)];
        let r = InvalidChars { allowed };
        assert(r.table() =~= default_whitelists());
        r
    }

    fn allowed_for(&self, key: &TlvKey) -> (r: Option<&Vec<char>>)
        ensures
            match whitelist(self.table(), key@) {
                Some(w) => r is Some && r->Some_0@ == w,
                None => r is None,
            },
    {
        let mut i: usize = 0;
        assert(self.table().skip(0) =~= self.table());
        while i < self.allowed.len()
            invariant
                i <= self.allowed@.len(),
                whitelist(self.table(), key@) == whitelist(self.table().skip(i as int), key@),
            decreases self.allowed@.len() - i,
        {
            assert(self.table().skip(i as int)[0] == (self.allowed@[i as int].0@, self.allowed@[i as int].1@));
            if let Ordering::Equal = self.allowed[i].0.cmp_key(key) {
                return Some(&self.allowed[i].1);
            }
            assert(self.table().skip(i as int).skip(1) =~= self.table().skip(i + 1));
            i = i + 1;
        }
        None
    }

    pub fn lint(&self, info: &[InfoEntry]) -> (r: Vec<LintEntry>)
        ensures
            lints_view(r@) == invalid_chars_spec(self.table(), infos_view(info@)),
    {
        let mut res: Vec<LintEntry> = Vec::new();
        let mut i: usize = 0;
        while i < info.len()
            invariant
                i <= info@.len(),
                lints_view(res@) == invalid_chars_spec(self.table(), infos_view(info@.take(i as int))),
            decreases info@.len() - i,
        {
            proof {
                assert(infos_view(info@.take(i + 1)).drop_last() =~= infos_view(info@.take(i as int)));
                assert(infos_view(info@.take(i + 1)).last() == (info@[i as int].0@, info@[i as int].1@));
            }
            let (key, data) = &info[i];
            if let Some(allowed) = self.allowed_for(key) {
                if let crate::parsers::ParseData::Text(text) = data {
                    if let Some(_) = first_outside(text.as_str(), allowed) {
                        let ghost prev = res@;
                        res.push(LintEntry::new(Lint::Warning(1)).with_tlv(key.duplicate()));
                        assert(lints_view(res@) =~= lints_view(prev).push(res@.last()@));
                    }
                }
            }
            i = i + 1;
        }
        assert(info@.take(i as int) =~= info@);
        res
    }
}

/// The position of the first character of `t` that is not in `allowed`.
fn first_outside(t: &str, allowed: &Vec<char>) -> (r: Option<usize>)
    ensures
        r is Some <==> has_invalid_char(t@, allowed@),
{
    let n = t.unicode_len();
    let mut i: usize = 0;
    while i < n
        invariant
            i <= n,
            n == t@.len(),
            forall|j: int| 0 <= j < i ==> allowed@.contains(#[trigger] t@[j]),
        decreases n - i,
    {
        let c = t.get_char(i);
        if !contains_char(allowed, c) {
            return Some(i);
        }
        i = i + 1;
    }
    None
}

fn contains_char(v: &Vec<char>, c: char) -> (r: bool)
    ensures
        r == v@.contains(c),
{
    let mut i: usize = 0;
    while i < v.len()
        invariant
            i <= v@.len(),
            forall|j: int| 0 <= j < i ==> v@[j] != c,
        decreases v@.len() - i,
    {
        if v[i] == c {
            return true;
        }
        i = i + 1;
    }
    false
}

/// How many entries have the ChassisID type.
pub open spec fn chassis_count(info: InfoView) -> nat
    decreases info.len(),
{
    if info.len() == 0 {
        0
    } else {
        chassis_count(info.drop_last()) + if info.last().0.0 == 1 {
            1nat
        } else {
            0nat
        }
    }
}

/// A hardware-address chassis identifier whose length is neither 6 nor 8
/// (and above 4).
pub open spec fn bad_chassis_mac(d: DataView) -> bool {
    match d {
        DataView::TypedData(t, b) => t == 4 && b.len() > 4 && b.len() != 6 && b.len() != 8,
        _ => false,
    }
}

/// The key that ChassisID findings carry.
pub open spec fn chassis_key() -> KeyView {
    (1u8, Seq::<u8>::empty())
}

/// An error for each entry with a bad hardware-address chassis identifier.
pub open spec fn bad_chassis_lints(info: InfoView) -> Seq<LintView>
    decreases info.len(),
{
    if info.len() == 0 {
        Seq::empty()
    } else if bad_chassis_mac(info.last().1) {
        bad_chassis_lints(info.drop_last()).push((Lint::Error(3), Some(chassis_key()), None::<Seq<char>>))
    } else {
        bad_chassis_lints(info.drop_last())
    }
}

/// One error when there is more than one ChassisID entry; otherwise the
/// errors for bad hardware-address identifiers.
pub open spec fn chassis_spec(info: InfoView) -> Seq<LintView> {
    if chassis_count(info) > 1 {
        seq![(Lint::Error(2), Some(chassis_key()), None::<Seq<char>>)]
    } else {
        bad_chassis_lints(info)
    }
}

/// Linter for ChassisID TLVs.
pub struct TLV1Linter;

impl TLV1Linter {
    pub fn lint(&self, info: &[InfoEntry]) -> (r: Vec<LintEntry>)
        ensures
            lints_view(r@) == chassis_spec(infos_view(info@)),
    {
        let mut dup: usize = 0;
        let mut le: Vec<LintEntry> = Vec::new();
        let mut i: usize = 0;
        while i < info.len()
            invariant
                i <= info@.len(),
                dup <= i,
                dup == chassis_count(infos_view(info@.take(i as int))),
                lints_view(le@) == bad_chassis_lints(infos_view(info@.take(i as int))),
            decreases info@.len() - i,
        {
            proof {
                assert(infos_view(info@.take(i + 1)).drop_last() =~= infos_view(info@.take(i as int)));
                assert(infos_view(info@.take(i + 1)).last() == (info@[i as int].0@, info@[i as int].1@));
            }
            let (key, data) = &info[i];
            if key.tlv_type == 1 {
                dup = dup + 1;
            }
            if let crate::parsers::ParseData::TypedData(t, d) = data {
                let size = d.len();
                if *t == 4 && size > 4 && size != 6 && size != 8 {
                    let ghost prev = le@;
                    le.push(LintEntry::new(Lint::Error(3)).with_tlv(TlvKey::new(1, Vec::new())));
                    assert(lints_view(le@) =~= lints_view(prev).push(le@.last()@));
                    assert(le@.last()@.1 == Some(chassis_key()));
                }
            }
            i = i + 1;
        }
        assert(info@.take(i as int) =~= info@);
        if dup > 1 {
            let mut res: Vec<LintEntry> = Vec::new();
            res.push(LintEntry::new(Lint::Error(2)).with_tlv(TlvKey::new(1, Vec::new())));
            assert(res@[0]@.1 == Some(chassis_key()));
            assert(lints_view(res@) =~= chassis_spec(infos_view(info@)));
            res
        } else {
            le
        }
    }
}

/// The linters, as one closed set.
pub enum Linter {
    CheckEndTlv(CheckEndTlv),
    InvalidChars(InvalidChars),
    TLV1Linter(TLV1Linter),
}

impl Linter {
    /// What the linter finds in the decoded entries.
    pub open spec fn spec_lint(&self, info: InfoView) -> Seq<LintView> {
        match self {
            Linter::CheckEndTlv(_) => end_tlv_spec(info),
            Linter::InvalidChars(l) => invalid_chars_spec(l.table(), info),
            Linter::TLV1Linter(_) => chassis_spec(info),
        }
    }

    /// Checks the decoded entries, which keep the order of their TLVs.
    pub fn lint(&self, info: &[InfoEntry]) -> (r: Vec<LintEntry>)
        ensures
            lints_view(r@) == self.spec_lint(infos_view(info@)),
    {
        match self {
            Linter::CheckEndTlv(l) => l.lint(info),
            Linter::InvalidChars(l) => l.lint(info),
            Linter::TLV1Linter(l) => l.lint(info),
        }
    }
}

/// How many findings in `l` are of the given lint.
pub open spec fn count_lint(l: Seq<LintView>, lint: Lint) -> nat
    decreases l.len(),
{
    if l.len() == 0 {
        0
    } else {
        count_lint(l.drop_last(), lint) + if l.last().0 == lint {
            1nat
        } else {
            0nat
        }
    }
}

pub proof fn lemma_count_lint_small(x: LintView, lint: Lint)
    ensures
        count_lint(Seq::<LintView>::empty(), lint) == 0,
        count_lint(seq![x], lint) == if x.0 == lint {
            1nat
        } else {
            0nat
        },
{
    assert(seq![x].drop_last() =~= Seq::<LintView>::empty());
}

pub proof fn lemma_count_lint_concat(a: Seq<LintView>, b: Seq<LintView>, lint: Lint)
    ensures
        count_lint(a + b, lint) == count_lint(a, lint) + count_lint(b, lint),
    decreases b.len(),
{
    if b.len() > 0 {
        assert((a + b).drop_last() =~= a + b.drop_last());
        lemma_count_lint_concat(a, b.drop_last(), lint);
    } else {
        assert(a + b =~= a);
    }
}

proof fn lemma_invalid_chars_only_warnings(table: Seq<(KeyView, Seq<char>)>, info: InfoView)
    ensures
        count_lint(invalid_chars_spec(table, info), Lint::Error(1)) == 0,
    decreases info.len(),
{
    lemma_count_lint_small((Lint::Warning(1), None::<KeyView>, None::<Seq<char>>), Lint::Error(1));
    if info.len() > 0 {
        lemma_invalid_chars_only_warnings(table, info.drop_last());
        let prev = invalid_chars_spec(table, info.drop_last());
        let l = (Lint::Warning(1), Some(info.last().0), None::<Seq<char>>);
        assert(prev.push(l).drop_last() =~= prev);
    }
}

proof fn lemma_chassis_no_end_error(info: InfoView)
    ensures
        count_lint(bad_chassis_lints(info), Lint::Error(1)) == 0,
        count_lint(chassis_spec(info), Lint::Error(1)) == 0,
    decreases info.len(),
{
    lemma_count_lint_small((Lint::Error(3), Some(chassis_key()), None::<Seq<char>>), Lint::Error(1));
    if info.len() > 0 {
        lemma_chassis_no_end_error(info.drop_last());
        let prev = bad_chassis_lints(info.drop_last());
        let l = (Lint::Error(3), Some(chassis_key()), None::<Seq<char>>);
        assert(prev.push(l).drop_last() =~= prev);
    }
    lemma_count_lint_small((Lint::Error(2), Some(chassis_key()), None::<Seq<char>>), Lint::Error(1));
}

/// The "No End TLV" error is raised exactly once when there are no
/// entries or the last entry is not an End TLV, and never otherwise; the
/// character and ChassisID linters never raise it.
pub proof fn lemma_end_tlv_presence(table: Seq<(KeyView, Seq<char>)>, info: InfoView)
    ensures
        count_lint(end_tlv_spec(info) + invalid_chars_spec(table, info) + chassis_spec(info), Lint::Error(1))
            == if info.len() == 0 || info.last().0.0 != 0 {
            1nat
        } else {
            0nat
        },
{
    lemma_invalid_chars_only_warnings(table, info);
    lemma_chassis_no_end_error(info);
    lemma_count_lint_concat(end_tlv_spec(info), invalid_chars_spec(table, info), Lint::Error(1));
    lemma_count_lint_concat(
        end_tlv_spec(info) + invalid_chars_spec(table, info),
        chassis_spec(info),
        Lint::Error(1),
    );
    lemma_count_lint_small((Lint::Error(1), None::<KeyView>, None::<Seq<char>>), Lint::Error(1));
}

} // verus!
