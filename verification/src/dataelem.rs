//! Value representations, dictionary entries, elements and their values,
//! and the lookup of attributes by tag or by keyword.

use crate::dictionary::Dictionary;
use crate::text::{
    collect_chars, hex_digit, hex_digit_char, is_upper_hex_digit, string_from_chars, trim,
    trimmed_chars, upper_hex_chars, upper_hex_digits,
};
use vstd::prelude::*;

verus! {

/// The value representations of the standard, with the three that leave the
/// choice between two of them open.
#[derive(Debug, Clone, Copy, PartialEq, Eq, Hash, Structural)]
pub enum DicomVr {
    Ae,
    As,
    At,
    Cs,
    Da,
    Ds,
    Dt,
    Fd,
    Fl,
    Is,
    Lo,
    Lt,
    Ob,
    ObOrOw,
    Od,
    Of,
    Ol,
    Ov,
    Ow,
    Pn,
    Sh,
    Sl,
    Sq,
    Ss,
    St,
    Sv,
    Tm,
    Uc,
    Ui,
    Ul,
    Un,
    Ur,
    Us,
    UsOrOw,
    UsOrSs,
    Ut,
    Uv,
}

/// The kind of value that an element is decoded into.
#[derive(Debug, Clone, Copy, PartialEq, Eq, Hash, Structural)]
pub enum ValueKind {
    Sequence,
    String,
    Data,
    Int16,
    Int32,
    Int64,
    UInt16,
    UInt32,
    UInt64,
    Float,
    Double,
    Tag,
}

impl DicomVr {
    /// The code of the value representation as the standard writes it.
    pub open spec fn code(self) -> Seq<char> {
        match self {
            DicomVr::Ae => "AE"@,
            DicomVr::As => "AS"@,
            DicomVr::At => "AT"@,
            DicomVr::Cs => "CS"@,
            DicomVr::Da => "DA"@,
            DicomVr::Ds => "DS"@,
            DicomVr::Dt => "DT"@,
            DicomVr::Fd => "FD"@,
            DicomVr::Fl => "FL"@,
            DicomVr::Is => "IS"@,
            DicomVr::Lo => "LO"@,
            DicomVr::Lt => "LT"@,
            DicomVr::Ob => "OB"@,
            DicomVr::ObOrOw => "OB or OW"@,
            DicomVr::Od => "OD"@,
            DicomVr::Of => "OF"@,
            DicomVr::Ol => "OL"@,
            DicomVr::Ov => "OV"@,
            DicomVr::Ow => "OW"@,
            DicomVr::Pn => "PN"@,
            DicomVr::Sh => "SH"@,
            DicomVr::Sl => "SL"@,
            DicomVr::Sq => "SQ"@,
            DicomVr::Ss => "SS"@,
            DicomVr::St => "ST"@,
            DicomVr::Sv => "SV"@,
            DicomVr::Tm => "TM"@,
            DicomVr::Uc => "UC"@,
            DicomVr::Ui => "UI"@,
            DicomVr::Ul => "UL"@,
            DicomVr::Un => "UN"@,
            DicomVr::Ur => "UR"@,
            DicomVr::Us => "US"@,
            DicomVr::UsOrOw => "US or OW"@,
            DicomVr::UsOrSs => "US or SS"@,
            DicomVr::Ut => "UT"@,
            DicomVr::Uv => "UV"@,
        }
    }

    /// The kind of value that the value representation suggests: a scalar
    /// of its width for the numeric ones, a pair of numbers for `AT`, a
    /// sequence for `SQ`, bytes for the binary ones, and text for the rest,
    /// the three undecided ones among them.
    pub open spec fn kind(self) -> ValueKind {
        match self {
            DicomVr::At => ValueKind::Tag,
            DicomVr::Fd => ValueKind::Double,
            DicomVr::Fl => ValueKind::Float,
            DicomVr::Ob
            | DicomVr::Od
            | DicomVr::Of
            | DicomVr::Ol
            | DicomVr::Ov
            | DicomVr::Ow
            | DicomVr::Un => ValueKind::Data,
            DicomVr::Sl => ValueKind::Int32,
            DicomVr::Sq => ValueKind::Sequence,
            DicomVr::Ss => ValueKind::Int16,
            DicomVr::Sv => ValueKind::Int64,
            DicomVr::Ul => ValueKind::UInt32,
            DicomVr::Us => ValueKind::UInt16,
            DicomVr::Uv => ValueKind::UInt64,
            _ => ValueKind::String,
        }
    }

    /// Whether values of the value representation are text.
    pub open spec fn is_text(self) -> bool {
        self.kind() == ValueKind::String
    }

    /// The code of the value representation as the standard writes it.
    pub fn as_str(&self) -> (s: &'static str)
        ensures
            s@ == self.code(),
    {
        match self {
            DicomVr::Ae => "AE",
            DicomVr::As => "AS",
            DicomVr::At => "AT",
            DicomVr::Cs => "CS",
            DicomVr::Da => "DA",
            DicomVr::Ds => "DS",
            DicomVr::Dt => "DT",
            DicomVr::Fd => "FD",
            DicomVr::Fl => "FL",
            DicomVr::Is => "IS",
            DicomVr::Lo => "LO",
            DicomVr::Lt => "LT",
            DicomVr::Ob => "OB",
            DicomVr::ObOrOw => "OB or OW",
            DicomVr::Od => "OD",
            DicomVr::Of => "OF",
            DicomVr::Ol => "OL",
            DicomVr::Ov => "OV",
            DicomVr::Ow => "OW",
            DicomVr::Pn => "PN",
            DicomVr::Sh => "SH",
            DicomVr::Sl => "SL",
            DicomVr::Sq => "SQ",
            DicomVr::Ss => "SS",
            DicomVr::St => "ST",
            DicomVr::Sv => "SV",
            DicomVr::Tm => "TM",
            DicomVr::Uc => "UC",
            DicomVr::Ui => "UI",
            DicomVr::Ul => "UL",
            DicomVr::Un => "UN",
            DicomVr::Ur => "UR",
            DicomVr::Us => "US",
            DicomVr::UsOrOw => "US or OW",
            DicomVr::UsOrSs => "US or SS",
            DicomVr::Ut => "UT",
            DicomVr::Uv => "UV",
        }
    }

    /// The kind of value that the value representation suggests. The reader
    /// follows it where the length of a value fits.
    pub fn suggested_value_kind(&self) -> (k: ValueKind)
        ensures
            k == self.kind(),
    {
        match self {
            DicomVr::Ae => ValueKind::String,
            DicomVr::As => ValueKind::String,
            DicomVr::At => ValueKind::Tag,
            DicomVr::Cs => ValueKind::String,
            DicomVr::Da => ValueKind::String,
            DicomVr::Ds => ValueKind::String,
            DicomVr::Dt => ValueKind::String,
            DicomVr::Fd => ValueKind::Double,
            DicomVr::Fl => ValueKind::Float,
            DicomVr::Is => ValueKind::String,
            DicomVr::Lo => ValueKind::String,
            DicomVr::Lt => ValueKind::String,
            DicomVr::Ob => ValueKind::Data,
            DicomVr::ObOrOw => ValueKind::String,
            DicomVr::Od => ValueKind::Data,
            DicomVr::Of => ValueKind::Data,
            DicomVr::Ol => ValueKind::Data,
            DicomVr::Ov => ValueKind::Data,
            DicomVr::Ow => ValueKind::Data,
            DicomVr::Pn => ValueKind::String,
            DicomVr::Sh => ValueKind::String,
            DicomVr::Sl => ValueKind::Int32,
            DicomVr::Sq => ValueKind::Sequence,
            DicomVr::Ss => ValueKind::Int16,
            DicomVr::St => ValueKind::String,
            DicomVr::Sv => ValueKind::Int64,
            DicomVr::Tm => ValueKind::String,
            DicomVr::Uc => ValueKind::String,
            DicomVr::Ui => ValueKind::String,
            DicomVr::Ul => ValueKind::UInt32,
            DicomVr::Un => ValueKind::Data,
            DicomVr::Ur => ValueKind::String,
            DicomVr::Us => ValueKind::UInt16,
            DicomVr::UsOrOw => ValueKind::String,
            DicomVr::UsOrSs => ValueKind::String,
            DicomVr::Ut => ValueKind::String,
            DicomVr::Uv => ValueKind::UInt64,
        }
    }
}

/// An entry of the dictionary.
#[derive(Debug, Clone, Copy)]
pub struct DicomAttribute {
    /// The tag as `(GGGG,EEEE)`: upper-case hexadecimal, eleven characters.
    pub tag: &'static str,
    pub name: &'static str,
    pub keyword: &'static str,
    pub vr: Option<DicomVr>,
    pub vm: &'static str,
    pub attr_type: &'static str,
}

/// What a dictionary entry holds, its strings as sequences of characters.
pub struct AttributeView {
    pub tag: Seq<char>,
    pub name: Seq<char>,
    pub keyword: Seq<char>,
    pub vr: Option<DicomVr>,
    pub vm: Seq<char>,
    pub attr_type: Seq<char>,
}

impl View for DicomAttribute {
    type V = AttributeView;

    open spec fn view(&self) -> AttributeView {
        AttributeView {
            tag: self.tag@,
            name: self.name@,
            keyword: self.keyword@,
            vr: self.vr,
            vm: self.vm@,
            attr_type: self.attr_type@,
        }
    }
}

/// The decoded value of an element.
#[derive(Debug)]
pub enum DataElementValue {
    Sequence(Vec<DataElement>),
    String(String),
    Data(Vec<u8>),
    Int16(i16),
    Int32(i32),
    Int64(i64),
    UInt16(u16),
    UInt32(u32),
    UInt64(u64),
    /// The bits of an IEEE 754 single-precision number.
    Float(u32),
    /// The bits of an IEEE 754 double-precision number.
    Double(u64),
    Tag(u16, u16),
}

/// One occurrence of an attribute in a dataset.
#[derive(Debug)]
pub struct DataElement {
    pub attribute: DicomAttribute,
    pub value: Option<DataElementValue>,
}

/// What a value holds.
pub enum ValueView {
    Sequence(Seq<ElementView>),
    String(Seq<char>),
    Data(Seq<u8>),
    Int16(i16),
    Int32(i32),
    Int64(i64),
    UInt16(u16),
    UInt32(u32),
    UInt64(u64),
    Float(u32),
    Double(u64),
    Tag(u16, u16),
}

/// What an element holds.
pub struct ElementView {
    pub attribute: AttributeView,
    pub value: Option<ValueView>,
}

impl ValueView {
    /// The kind of the value.
    pub open spec fn kind(self) -> ValueKind {
        match self {
            ValueView::Sequence(_) => ValueKind::Sequence,
            ValueView::String(_) => ValueKind::String,
            ValueView::Data(_) => ValueKind::Data,
            ValueView::Int16(_) => ValueKind::Int16,
            ValueView::Int32(_) => ValueKind::Int32,
            ValueView::Int64(_) => ValueKind::Int64,
            ValueView::UInt16(_) => ValueKind::UInt16,
            ValueView::UInt32(_) => ValueKind::UInt32,
            ValueView::UInt64(_) => ValueKind::UInt64,
            ValueView::Float(_) => ValueKind::Float,
            ValueView::Double(_) => ValueKind::Double,
            ValueView::Tag(_, _) => ValueKind::Tag,
        }
    }
}

impl View for DataElementValue {
    type V = ValueView;

    open spec fn view(&self) -> ValueView
        decreases self,
    {
        match self {
            DataElementValue::Sequence(items) => ValueView::Sequence(
                Seq::new(
                    items@.len(),
                    |i: int|
                        if 0 <= i < items@.len() {
                            items@[i].view()
                        } else {
                            arbitrary()
                        },
                ),
            ),
            DataElementValue::String(s) => ValueView::String(s@),
            DataElementValue::Data(b) => ValueView::Data(b@),
            DataElementValue::Int16(v) => ValueView::Int16(*v),
            DataElementValue::Int32(v) => ValueView::Int32(*v),
            DataElementValue::Int64(v) => ValueView::Int64(*v),
            DataElementValue::UInt16(v) => ValueView::UInt16(*v),
            DataElementValue::UInt32(v) => ValueView::UInt32(*v),
            DataElementValue::UInt64(v) => ValueView::UInt64(*v),
            DataElementValue::Float(v) => ValueView::Float(*v),
            DataElementValue::Double(v) => ValueView::Double(*v),
            DataElementValue::Tag(g, e) => ValueView::Tag(*g, *e),
        }
    }
}

impl View for DataElement {
    type V = ElementView;

    open spec fn view(&self) -> ElementView
        decreases self,
    {
        ElementView {
            attribute: self.attribute@,
            value: match self.value {
                Some(v) => Some(v.view()),
                None => None,
            },
        }
    }
}

/// What each element of a list holds.
pub open spec fn element_views(elements: Seq<DataElement>) -> Seq<ElementView> {
    Seq::new(elements.len(), |i: int| elements[i]@)
}

impl Clone for DataElementValue {
    fn clone(&self) -> (r: Self)
        ensures
            r@ == self@,
        decreases self,
    {
        match self {
            DataElementValue::Sequence(items) => {
                let mut out: Vec<DataElement> = Vec::new();
                let mut i: usize = 0;
                while i < items.len()
                    invariant
                        i <= items.len(),
                        out.len() == i,
                        decreases_to!(*self => *items),
                        forall|k: int| 0 <= k < i ==> out@[k]@ == items@[k]@,
                    decreases items.len() - i,
                {
                    assert(decreases_to!(*items => items[i as int]));
                    out.push(items[i].clone());
                    i += 1;
                }
                let r = DataElementValue::Sequence(out);
                assert(r@->Sequence_0 =~= self@->Sequence_0);
                r
            },
            DataElementValue::String(s) => DataElementValue::String(s.clone()),
            DataElementValue::Data(b) => DataElementValue::Data(b.clone()),
            DataElementValue::Int16(v) => DataElementValue::Int16(*v),
            DataElementValue::Int32(v) => DataElementValue::Int32(*v),
            DataElementValue::Int64(v) => DataElementValue::Int64(*v),
            DataElementValue::UInt16(v) => DataElementValue::UInt16(*v),
            DataElementValue::UInt32(v) => DataElementValue::UInt32(*v),
            DataElementValue::UInt64(v) => DataElementValue::UInt64(*v),
            DataElementValue::Float(v) => DataElementValue::Float(*v),
            DataElementValue::Double(v) => DataElementValue::Double(*v),
            DataElementValue::Tag(g, e) => DataElementValue::Tag(*g, *e),
        }
    }
}

impl Clone for DataElement {
    fn clone(&self) -> (r: Self)
        ensures
            r@ == self@,
        decreases self,
    {
        let value = match &self.value {
            Some(v) => Some(v.clone()),
            None => None,
        };
        DataElement { attribute: self.attribute, value }
    }
}

/// The four upper-case hexadecimal digits of `v`.
pub open spec fn tag_digits(v: u16) -> Seq<char> {
    seq![
        hex_digit(v as int / 4096),
        hex_digit((v as int / 256) % 16),
        hex_digit((v as int / 16) % 16),
        hex_digit(v as int % 16),
    ]
}

/// The tag of group and element as `(GGGG,EEEE)`.
pub open spec fn canonical_tag(group: u16, element: u16) -> Seq<char> {
    seq!['('] + tag_digits(group) + seq![','] + tag_digits(element) + seq![')']
}

/// Whether `s` has the form `(GGGG,EEEE)` with upper-case hexadecimal digits.
pub open spec fn is_canonical_tag(s: Seq<char>) -> bool {
    &&& s.len() == 11
    &&& s[0] == '('
    &&& s[5] == ','
    &&& s[10] == ')'
    &&& forall|i: int| (1 <= i < 5 || 6 <= i < 10) ==> is_upper_hex_digit(#[trigger] s[i])
}

/// Whether `s` starts with `(`, ends with `)` and holds a comma.
pub open spec fn has_tag_shape(s: Seq<char>) -> bool {
    &&& s.len() > 0
    &&& s[0] == '('
    &&& s.last() == ')'
    &&& s.contains(',')
}

/// The form under which a tag is looked up: the input without the white
/// space around it where that has the shape of a tag; else, where it holds
/// eight hexadecimal digits, those as `(GGGG,EEEE)` in upper case; else the
/// input without the white space around it.
pub open spec fn normalize_tag_spec(input: Seq<char>) -> Seq<char> {
    let s = trim(input);
    let hex = upper_hex_digits(s);
    if has_tag_shape(s) {
        s
    } else if hex.len() == 8 {
        seq!['('] + hex.subrange(0, 4) + seq![','] + hex.subrange(4, 8) + seq![')']
    } else {
        s
    }
}

fn chars_have_tag_shape(s: &Vec<char>) -> (r: bool)
    ensures
        r == has_tag_shape(s@),
{
    let n: usize = s.len();
    if n == 0 || s[0] != '(' || s[n - 1] != ')' {
        return false;
    }
    let mut i: usize = 0;
    while i < n
        invariant
            i <= n,
            n == s.len(),
            n > 0,
            s@[0] == '(',
            s@.last() == ')',
            forall|k: int| 0 <= k < i ==> s@[k] != ',',
        decreases n - i,
    {
        if s[i] == ',' {
            assert(s@[i as int] == ',');
            return true;
        }
        i += 1;
    }
    false
}

/// Brings a tag given in a loose form into the form of the dictionary.
pub fn normalize_tag(id_or_tag: &str) -> (r: String)
    ensures
        r@ == normalize_tag_spec(id_or_tag@),
{
    let chars = collect_chars(id_or_tag);
    let s = trimmed_chars(&chars);
    if chars_have_tag_shape(&s) {
        return string_from_chars(&s);
    }
    let hex = upper_hex_chars(&s);
    if hex.len() == 8 {
        let mut out: Vec<char> = Vec::new();
        out.push('(');
        out.push(hex[0]);
        out.push(hex[1]);
        out.push(hex[2]);
        out.push(hex[3]);
        out.push(',');
        out.push(hex[4]);
        out.push(hex[5]);
        out.push(hex[6]);
        out.push(hex[7]);
        out.push(')');
        assert(out@ =~= seq!['('] + hex@.subrange(0, 4) + seq![','] + hex@.subrange(4, 8) + seq![')']);
        return string_from_chars(&out);
    }
    string_from_chars(&s)
}

/// The tag of group and element as `(GGGG,EEEE)`.
pub fn format_tag(group: u16, element: u16) -> (r: String)
    ensures
        r@ == canonical_tag(group, element),
{
    let mut out: Vec<char> = Vec::new();
    out.push('(');
    out.push(hex_digit_char((group / 4096) as u8));
    out.push(hex_digit_char(((group / 256) % 16) as u8));
    out.push(hex_digit_char(((group / 16) % 16) as u8));
    out.push(hex_digit_char((group % 16) as u8));
    out.push(',');
    out.push(hex_digit_char((element / 4096) as u8));
    out.push(hex_digit_char(((element / 256) % 16) as u8));
    out.push(hex_digit_char(((element / 16) % 16) as u8));
    out.push(hex_digit_char((element % 16) as u8));
    out.push(')');
    assert(out@ =~= canonical_tag(group, element));
    string_from_chars(&out)
}

/// Whether `tag` has the form `(GGGG,EEEE)` with upper-case hexadecimal
/// digits.
pub fn tag_is_canonical(tag: &str) -> (r: bool)
    ensures
        r == is_canonical_tag(tag@),
{
    let s = collect_chars(tag);
    if s.len() != 11 || s[0] != '(' || s[5] != ',' || s[10] != ')' {
        return false;
    }
    let mut i: usize = 1;
    while i < 10
        invariant
            1 <= i <= 10,
            s.len() == 11,
            s@ == tag@,
            forall|k: int| (1 <= k < i && k != 5) ==> is_upper_hex_digit(#[trigger] s@[k]),
        decreases 10 - i,
    {
        if i != 5 {
            let n: u32 = s[i] as u32;
            if !((0x30 <= n && n <= 0x39) || (0x41 <= n && n <= 0x46)) {
                return false;
            }
        }
        i += 1;
    }
    true
}

/// A tag of the form `(GGGG,EEEE)` is looked up as it stands.
pub proof fn lemma_normalize_canonical(tag: Seq<char>)
    requires
        is_canonical_tag(tag),
    ensures
        normalize_tag_spec(tag) == tag,
{
    assert(tag[5] == ',');
    assert(tag.contains(','));
    assert(crate::text::trim_start(tag) == tag);
    assert(crate::text::trim_end(tag) == tag);
}

/// The tag of a group and an element has the form `(GGGG,EEEE)`.
pub proof fn lemma_canonical_tag_form(group: u16, element: u16)
    ensures
        is_canonical_tag(canonical_tag(group, element)),
{
    let t = canonical_tag(group, element);
    assert(t.len() == 11);
    assert forall|i: int| (1 <= i < 5 || 6 <= i < 10) implies is_upper_hex_digit(#[trigger] t[i]) by {
        if i < 5 {
            assert(t[i] == tag_digits(group)[i - 1]);
        } else {
            assert(t[i] == tag_digits(element)[i - 6]);
        }
    }
}

/// Looks an attribute up by its tag, given as `(GGGG,EEEE)` or in a loose
/// form: eight hexadecimal digits with any punctuation.
pub fn attribute_by_tag(dict: &Dictionary, id_or_tag: &str) -> (r: Option<DicomAttribute>)
    ensures
        r == dict.by_tag(normalize_tag_spec(id_or_tag@)),
{
    let normalized = normalize_tag(id_or_tag);
    dict.search(normalized.as_str(), false)
}

/// Looks an attribute up by its keyword, which must match exactly.
pub fn attribute_by_keyword(dict: &Dictionary, keyword: &str) -> (r: Option<DicomAttribute>)
    ensures
        r == dict.by_keyword(keyword@),
{
    dict.search(keyword, true)
}

/// Normalizing a tag twice gives what normalizing it once gives.
pub proof fn lemma_normalize_idempotent(input: Seq<char>)
    ensures
        normalize_tag_spec(normalize_tag_spec(input)) == normalize_tag_spec(input),
{
    let s = trim(input);
    let hex = upper_hex_digits(s);
    crate::text::lemma_trim_idempotent(input);
    if !has_tag_shape(s) && hex.len() == 8 {
        let r = seq!['('] + hex.subrange(0, 4) + seq![','] + hex.subrange(4, 8) + seq![')'];
        assert(r.len() == 11);
        assert(r[0] == '(');
        assert(r[10] == ')');
        assert(r[5] == ',');
        assert(r.contains(','));
        crate::text::lemma_trim_fixed(r);
    }
}

} // verus!
