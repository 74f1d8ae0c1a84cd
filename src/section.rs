//! Address-range sections of a module and the table that holds them.
use vstd::prelude::*;

use crate::text::{
    attr_key, attr_value, lemma_word_at, parse_u32, parse_u32_spec, split_attribute, split_words, word_spans, words,
};

verus! {

/// Where a parsed line came from, for diagnostics.
pub struct ParseContext {
    pub file_path: String,
    pub row: usize,
}

impl ParseContext {
    /// A copy of this context.
    pub fn duplicate(&self) -> (r: ParseContext)
        ensures
            r.file_path@ == self.file_path@,
            r.row == self.row,
    {
        ParseContext { file_path: self.file_path.clone(), row: self.row }
    }
}

/// Position of a section in a `Sections` table.
#[derive(Clone, Copy, Debug, PartialEq, Eq)]
pub struct SectionIndex(pub usize);

/// What a section holds. Code and data carry bytes; bss does not.
#[derive(Clone, Copy, Debug, PartialEq, Eq, Structural)]
pub enum SectionKind {
    Code,
    Data,
    Bss,
}

/// The kind that a `kind:` attribute value names.
pub open spec fn kind_of_name(value: Seq<char>) -> Option<SectionKind> {
    if value == "code"@ {
        Some(SectionKind::Code)
    } else if value == "data"@ {
        Some(SectionKind::Data)
    } else if value == "bss"@ {
        Some(SectionKind::Bss)
    } else {
        None
    }
}

pub enum SectionKindError {
    UnknownKind { context: ParseContext, value: String },
}

/// Whether two strings hold the same characters.
pub fn str_eq(a: &str, b: &str) -> (r: bool)
    ensures
        r == (a@ == b@),
{
    let x = a.to_owned();
    let y = b.to_owned();
    x == y
}

impl SectionKind {
    pub open spec fn spec_is_initialized(self) -> bool {
        self != SectionKind::Bss
    }

    /// Reads a section kind: `code`, `data` or `bss`.
    pub fn parse(value: &str, context: &ParseContext) -> (r: Result<SectionKind, SectionKindError>)
        ensures
            match r {
                Ok(k) => kind_of_name(value@) == Some(k),
                Err(SectionKindError::UnknownKind { context: c, value: v }) => kind_of_name(value@).is_none()
                    && v@ == value@ && c.file_path@ == context.file_path@ && c.row == context.row,
            },
    {
        if str_eq(value, "code") {
            Ok(SectionKind::Code)
        } else if str_eq(value, "data") {
            Ok(SectionKind::Data)
        } else if str_eq(value, "bss") {
            Ok(SectionKind::Bss)
        } else {
            Err(SectionKindError::UnknownKind { context: context.duplicate(), value: value.to_owned() })
        }
    }

    /// Whether sections of this kind carry bytes.
    #[verifier::when_used_as_spec(spec_is_initialized)]
    pub fn is_initialized(self) -> (r: bool)
        ensures
            r == self.spec_is_initialized(),
    {
        match self {
            SectionKind::Code => true,
            SectionKind::Data => true,
            SectionKind::Bss => false,
        }
    }
}

/// Whether `a` is a power of two.
pub open spec fn is_power_of_two(a: u32) -> bool {
    a != 0 && a & ((a - 1) as u32) == 0
}

/// The plain values of a section.
pub struct SectionSpec {
    pub name: Seq<char>,
    pub kind: SectionKind,
    pub start: u32,
    pub end: u32,
    pub alignment: u32,
}

impl SectionSpec {
    /// A section ends no earlier than it starts, and starts on its alignment,
    /// which is a power of two.
    pub open spec fn wf(self) -> bool {
        &&& self.start <= self.end
        &&& is_power_of_two(self.alignment)
        &&& self.start % self.alignment == 0
    }

    pub open spec fn contains(self, address: u32) -> bool {
        self.start <= address < self.end
    }

    pub open spec fn overlaps(self, other: SectionSpec) -> bool {
        self.start < other.end && other.start < self.end
    }
}

/// Why a section's attributes do not make a section.
pub enum SectionError {
    EndBeforeStart { name: String, start_address: u32, end_address: u32 },
    AlignmentPowerOfTwo { name: String, alignment: u32 },
    MisalignedStart { name: String, start_address: u32, alignment: u32 },
}

/// The reason, without the name, that `Section::new` gives for its arguments.
pub enum SectionFailure {
    EndBeforeStart,
    AlignmentPowerOfTwo,
    MisalignedStart,
}

impl SectionError {
    pub open spec fn failure(self) -> SectionFailure {
        match self {
            SectionError::EndBeforeStart { .. } => SectionFailure::EndBeforeStart,
            SectionError::AlignmentPowerOfTwo { .. } => SectionFailure::AlignmentPowerOfTwo,
            SectionError::MisalignedStart { .. } => SectionFailure::MisalignedStart,
        }
    }

    /// The error holds the values it was built from.
    pub open spec fn describes(self, name: Seq<char>, start: u32, end: u32, alignment: u32) -> bool {
        match self {
            SectionError::EndBeforeStart { name: n, start_address: s, end_address: e } => n@ == name
                && s == start && e == end,
            SectionError::AlignmentPowerOfTwo { name: n, alignment: a } => n@ == name && a == alignment,
            SectionError::MisalignedStart { name: n, start_address: s, alignment: a } => n@ == name && s
                == start && a == alignment,
        }
    }
}

/// The section that `Section::new` builds from these values, or why it fails:
/// first an end before the start, then an alignment that is not a power of
/// two, then a start off the alignment.
pub open spec fn new_section_spec(
    name: Seq<char>,
    kind: SectionKind,
    start: u32,
    end: u32,
    alignment: u32,
) -> Result<SectionSpec, SectionFailure> {
    if end < start {
        Err(SectionFailure::EndBeforeStart)
    } else if !is_power_of_two(alignment) {
        Err(SectionFailure::AlignmentPowerOfTwo)
    } else if start % alignment != 0 {
        Err(SectionFailure::MisalignedStart)
    } else {
        Ok(SectionSpec { name, kind, start, end, alignment })
    }
}

pub struct Section {
    name: String,
    kind: SectionKind,
    start_address: u32,
    end_address: u32,
    alignment: u32,
}

impl View for Section {
    type V = SectionSpec;

    closed spec fn view(&self) -> SectionSpec {
        SectionSpec {
            name: self.name@,
            kind: self.kind,
            start: self.start_address,
            end: self.end_address,
            alignment: self.alignment,
        }
    }
}

/// The result that `Section::new` promises for these values.
pub open spec fn new_section_result(
    r: Result<Section, SectionError>,
    name: Seq<char>,
    kind: SectionKind,
    start: u32,
    end: u32,
    alignment: u32,
) -> bool {
    match r {
        Ok(s) => new_section_spec(name, kind, start, end, alignment) == Ok::<SectionSpec, SectionFailure>(
            s@,
        ),
        Err(e) => new_section_spec(name, kind, start, end, alignment) == Err::<SectionSpec, SectionFailure>(
            e.failure(),
        ) && e.describes(name, start, end, alignment),
    }
}

#[verifier::rlimit(80)]
proof fn lemma_mask_is_mod(start: u32, alignment: u32)
    requires
        is_power_of_two(alignment),
    ensures
        (start & ((alignment - 1) as u32) == 0) == (start % alignment == 0),
{
    assert((alignment != 0 && alignment & ((alignment - 1) as u32) == 0) ==> ((start & ((alignment
        - 1) as u32) == 0) == (start % alignment == 0))) by (bit_vector);
}

impl Section {
    /// Builds a section, checking its invariants.
    pub fn new(name: String, kind: SectionKind, start_address: u32, end_address: u32, alignment: u32) -> (r:
        Result<Section, SectionError>)
        ensures
            new_section_result(r, name@, kind, start_address, end_address, alignment),
            r is Ok ==> r->Ok_0@.wf(),
    {
        if end_address < start_address {
            return Err(SectionError::EndBeforeStart { name, start_address, end_address });
        }
        let pow2 = alignment != 0 && (alignment & (alignment - 1)) == 0;
        if !pow2 {
            return Err(SectionError::AlignmentPowerOfTwo { name, alignment });
        }
        proof {
            lemma_mask_is_mod(start_address, alignment);
        }
        let misalign_mask = alignment - 1;
        if (start_address & misalign_mask) != 0 {
            return Err(SectionError::MisalignedStart { name, start_address, alignment });
        }
        Ok(Section { name, kind, start_address, end_address, alignment })
    }

    /// A section with the name, kind and alignment of `other` and the given range.
    pub fn inherit(other: &Section, start_address: u32, end_address: u32) -> (r: Result<Section, SectionError>)
        ensures
            new_section_result(r, other@.name, other@.kind, start_address, end_address, other@.alignment),
            r is Ok ==> r->Ok_0@.wf(),
    {
        Section::new(other.name.clone(), other.kind, start_address, end_address, other.alignment)
    }

    pub fn size(&self) -> (r: u32)
        requires
            self@.wf(),
        ensures
            r == self@.end - self@.start,
    {
        self.end_address - self.start_address
    }

    pub fn name(&self) -> (r: &str)
        ensures
            r@ == self@.name,
    {
        self.name.as_str()
    }

    pub fn kind(&self) -> (r: SectionKind)
        ensures
            r == self@.kind,
    {
        self.kind
    }

    pub fn start_address(&self) -> (r: u32)
        ensures
            r == self@.start,
    {
        self.start_address
    }

    pub fn end_address(&self) -> (r: u32)
        ensures
            r == self@.end,
    {
        self.end_address
    }

    pub fn address_range(&self) -> (r: std::ops::Range<u32>)
        ensures
            r.start == self@.start,
            r.end == self@.end,
    {
        std::ops::Range { start: self.start_address, end: self.end_address }
    }

    pub fn alignment(&self) -> (r: u32)
        ensures
            r == self@.alignment,
    {
        self.alignment
    }

    pub fn overlaps_with(&self, other: &Section) -> (r: bool)
        ensures
            r == self@.overlaps(other@),
    {
        self.start_address < other.end_address && other.start_address < self.end_address
    }
}

pub enum SectionsError {
    DuplicateName { name: String },
    Overlapping { name: String, other_name: String },
}

/// The sections of one module, in the order they were added.
pub struct Sections {
    sections: Vec<Section>,
}

impl View for Sections {
    type V = Seq<SectionSpec>;

    closed spec fn view(&self) -> Seq<SectionSpec> {
        self.sections@.map_values(|s: Section| s@)
    }
}

/// Every section is well formed, no two share a name and no two overlap.
pub open spec fn sections_wf(s: Seq<SectionSpec>) -> bool {
    &&& forall|i: int| 0 <= i < s.len() ==> (#[trigger] s[i]).wf()
    &&& forall|i: int, j: int|
        0 <= i < s.len() && 0 <= j < s.len() && i != j ==> (#[trigger] s[i]).name != (#[trigger] s[j]).name
    &&& forall|i: int, j: int|
        0 <= i < s.len() && 0 <= j < s.len() && i != j ==> !(#[trigger] s[i]).overlaps(#[trigger] s[j])
}

/// Whether some section of `s` is named `name`.
pub open spec fn has_name(s: Seq<SectionSpec>, name: Seq<char>) -> bool {
    exists|j: int| 0 <= j < s.len() && (#[trigger] s[j]).name == name
}

/// Whether some section of `s` overlaps `t`.
pub open spec fn has_overlap(s: Seq<SectionSpec>, t: SectionSpec) -> bool {
    exists|j: int| 0 <= j < s.len() && (#[trigger] s[j]).overlaps(t)
}

/// The index of the first section of `s` that contains `address`, if any.
pub open spec fn first_containing(s: Seq<SectionSpec>, address: u32) -> Option<int>
    decreases s.len(),
{
    if s.len() == 0 {
        None
    } else {
        match first_containing(s.drop_last(), address) {
            Some(i) => Some(i),
            None => if s.last().contains(address) {
                Some(s.len() - 1)
            } else {
                None
            },
        }
    }
}

proof fn lemma_first_containing(s: Seq<SectionSpec>, address: u32)
    ensures
        match first_containing(s, address) {
            Some(i) => 0 <= i < s.len() && s[i].contains(address) && forall|k: int|
                0 <= k < i ==> !(#[trigger] s[k]).contains(address),
            None => forall|k: int| 0 <= k < s.len() ==> !(#[trigger] s[k]).contains(address),
        },
    decreases s.len(),
{
    if s.len() > 0 {
        let p = s.drop_last();
        lemma_first_containing(p, address);
        assert(forall|k: int| 0 <= k < p.len() ==> p[k] == s[k]);
    }
}

impl Sections {
    pub open spec fn wf(&self) -> bool {
        sections_wf(self@)
    }

    pub fn new() -> (r: Sections)
        ensures
            r@ == Seq::<SectionSpec>::empty(),
            r.wf(),
    {
        let r = Sections { sections: Vec::new() };
        assert(r@ =~= Seq::<SectionSpec>::empty());
        r
    }

    /// Adds a section, refusing one whose name is taken or that overlaps a
    /// section already there.
    pub fn add(&mut self, section: Section) -> (r: Result<SectionIndex, SectionsError>)
        requires
            old(self).wf(),
            section@.wf(),
        ensures
            final(self).wf(),
            match r {
                Ok(i) => !has_name(old(self)@, section@.name) && !has_overlap(old(self)@, section@) && i.0
                    == old(self)@.len() && final(self)@ == old(self)@.push(section@),
                Err(SectionsError::DuplicateName { name }) => has_name(old(self)@, section@.name) && name@
                    == section@.name && final(self)@ == old(self)@,
                Err(SectionsError::Overlapping { name, other_name }) => !has_name(old(self)@, section@.name)
                    && name@ == section@.name && final(self)@ == old(self)@ && exists|j: int|
                    0 <= j < old(self)@.len() && (#[trigger] old(self)@[j]).overlaps(section@)
                        && other_name@ == old(self)@[j].name && forall|k: int|
                        0 <= k < j ==> !(#[trigger] old(self)@[k]).overlaps(section@),
            },
    {
        let n = self.sections.len();
        let mut j: usize = 0;
        while j < n
            invariant
                n == self.sections@.len(),
                self@ == old(self)@,
                self.wf(),
                j <= n,
                forall|k: int| 0 <= k < j ==> (#[trigger] self@[k]).name != section@.name,
            decreases n - j,
        {
            assert(self@[j as int] == self.sections@[j as int]@);
            if self.sections[j].name == section.name {
                return Err(SectionsError::DuplicateName { name: section.name });
            }
            j += 1;
        }
        j = 0;
        while j < n
            invariant
                n == self.sections@.len(),
                self@ == old(self)@,
                self.wf(),
                j <= n,
                !has_name(self@, section@.name),
                forall|k: int| 0 <= k < j ==> !(#[trigger] self@[k]).overlaps(section@),
            decreases n - j,
        {
            assert(self@[j as int] == self.sections@[j as int]@);
            if section.overlaps_with(&self.sections[j]) {
                let other_name = self.sections[j].name.clone();
                return Err(SectionsError::Overlapping { name: section.name, other_name });
            }
            j += 1;
        }
        let ghost sv = section@;
        self.sections.push(section);
        assert(self@ =~= old(self)@.push(sv));
        Ok(SectionIndex(n))
    }

    pub fn get(&self, index: usize) -> (r: &Section)
        requires
            index < self@.len(),
        ensures
            r@ == self@[index as int],
    {
        &self.sections[index]
    }

    /// The section named `name`, with its index.
    pub fn by_name(&self, name: &str) -> (r: Option<(SectionIndex, &Section)>)
        requires
            self.wf(),
        ensures
            match r {
                Some((i, s)) => i.0 < self@.len() && self@[i.0 as int].name == name@ && s@ == self@[i.0 as int],
                None => !has_name(self@, name@),
            },
    {
        let key = name.to_owned();
        let n = self.sections.len();
        let mut j: usize = 0;
        while j < n
            invariant
                n == self.sections@.len(),
                j <= n,
                key@ == name@,
                forall|k: int| 0 <= k < j ==> (#[trigger] self@[k]).name != name@,
            decreases n - j,
        {
            assert(self@[j as int] == self.sections@[j as int]@);
            if self.sections[j].name == key {
                return Some((SectionIndex(j), &self.sections[j]));
            }
            j += 1;
        }
        None
    }

    /// The sections in the order they were added.
    pub fn iter(&self) -> (r: &[Section])
        ensures
            r@.map_values(|s: Section| s@) == self@,
    {
        self.sections.as_slice()
    }

    pub fn len(&self) -> (r: usize)
        ensures
            r == self@.len(),
    {
        self.sections.len()
    }

    /// The first section whose range holds `address`, with its index.
    pub fn get_by_contained_address(&self, address: u32) -> (r: Option<(SectionIndex, &Section)>)
        ensures
            match r {
                Some((i, s)) => first_containing(self@, address) == Some(i.0 as int) && s@ == self@[i.0 as int],
                None => first_containing(self@, address).is_none(),
            },
    {
        proof {
            lemma_first_containing(self@, address);
        }
        let n = self.sections.len();
        let mut j: usize = 0;
        while j < n
            invariant
                n == self.sections@.len(),
                j <= n,
                forall|k: int| 0 <= k < j ==> !(#[trigger] self@[k]).contains(address),
                match first_containing(self@, address) {
                    Some(i) => 0 <= i < self@.len() && self@[i].contains(address) && forall|k: int|
                        0 <= k < i ==> !(#[trigger] self@[k]).contains(address),
                    None => forall|k: int| 0 <= k < self@.len() ==> !(#[trigger] self@[k]).contains(address),
                },
            decreases n - j,
        {
            assert(self@[j as int] == self.sections@[j as int]@);
            let s = &self.sections[j];
            if address >= s.start_address && address < s.end_address {
                return Some((SectionIndex(j), s));
            }
            j += 1;
        }
        None
    }
}

/// Why a section line does not parse, without the parse context.
pub enum SectionParseFailure {
    UnknownKind(Seq<char>),
    ParseStartAddress(Seq<char>),
    ParseEndAddress(Seq<char>),
    ParseAlignment(Seq<char>),
    UnknownAttribute(Seq<char>),
    MissingAttribute(Seq<char>),
    Section(SectionFailure),
    NotInHeader(Seq<char>),
    InheritedAttribute(Seq<char>),
}

pub enum SectionParseError {
    SectionKind { source: SectionKindError },
    ParseStartAddress { context: ParseContext, value: String },
    ParseEndAddress { context: ParseContext, value: String },
    ParseAlignment { context: ParseContext, value: String },
    UnknownAttribute { context: ParseContext, key: String },
    MissingAttribute { context: ParseContext, attribute: String },
    Section { context: ParseContext, error: SectionError },
}

pub enum SectionInheritParseError {
    NotInHeader { context: ParseContext, name: String },
    InheritedAttribute { context: ParseContext, attribute: String },
    SectionParse { source: SectionParseError },
}

/// Whether `c` is the context of file `f` at row `row`.
pub open spec fn context_is(c: ParseContext, f: Seq<char>, row: usize) -> bool {
    c.file_path@ == f && c.row == row
}

impl SectionParseError {
    pub open spec fn failure(self) -> SectionParseFailure {
        match self {
            SectionParseError::SectionKind { source: SectionKindError::UnknownKind { value, .. } } =>
                SectionParseFailure::UnknownKind(value@),
            SectionParseError::ParseStartAddress { value, .. } => SectionParseFailure::ParseStartAddress(value@),
            SectionParseError::ParseEndAddress { value, .. } => SectionParseFailure::ParseEndAddress(value@),
            SectionParseError::ParseAlignment { value, .. } => SectionParseFailure::ParseAlignment(value@),
            SectionParseError::UnknownAttribute { key, .. } => SectionParseFailure::UnknownAttribute(key@),
            SectionParseError::MissingAttribute { attribute, .. } => SectionParseFailure::MissingAttribute(
                attribute@,
            ),
            SectionParseError::Section { error, .. } => SectionParseFailure::Section(error.failure()),
        }
    }

    /// The error names the context it was raised in.
    pub open spec fn in_context(self, f: Seq<char>, row: usize) -> bool {
        match self {
            SectionParseError::SectionKind { source: SectionKindError::UnknownKind { context, .. } } =>
                context_is(context, f, row),
            SectionParseError::ParseStartAddress { context, .. } => context_is(context, f, row),
            SectionParseError::ParseEndAddress { context, .. } => context_is(context, f, row),
            SectionParseError::ParseAlignment { context, .. } => context_is(context, f, row),
            SectionParseError::UnknownAttribute { context, .. } => context_is(context, f, row),
            SectionParseError::MissingAttribute { context, .. } => context_is(context, f, row),
            SectionParseError::Section { context, .. } => context_is(context, f, row),
        }
    }
}

impl SectionInheritParseError {
    pub open spec fn failure(self) -> SectionParseFailure {
        match self {
            SectionInheritParseError::NotInHeader { name, .. } => SectionParseFailure::NotInHeader(name@),
            SectionInheritParseError::InheritedAttribute { attribute, .. } =>
                SectionParseFailure::InheritedAttribute(attribute@),
            SectionInheritParseError::SectionParse { source } => source.failure(),
        }
    }

    pub open spec fn in_context(self, f: Seq<char>, row: usize) -> bool {
        match self {
            SectionInheritParseError::NotInHeader { context, .. } => context_is(context, f, row),
            SectionInheritParseError::InheritedAttribute { context, .. } => context_is(context, f, row),
            SectionInheritParseError::SectionParse { source } => source.in_context(f, row),
        }
    }
}

/// The attributes read so far from a section line.
#[derive(Clone, Copy)]
pub struct SectionAttrs {
    pub kind: Option<SectionKind>,
    pub start: Option<u32>,
    pub end: Option<u32>,
    pub align: Option<u32>,
}

/// Reads one `key:value` attribute into `st`. An inherited line takes only
/// `start` and `end`: `kind` and `align` come from the header's section.
pub open spec fn attr_step(st: SectionAttrs, key: Seq<char>, value: Seq<char>, inherit: bool) -> Result<
    SectionAttrs,
    SectionParseFailure,
> {
    if key == "kind"@ {
        if inherit {
            Err(SectionParseFailure::InheritedAttribute("kind"@))
        } else {
            match kind_of_name(value) {
                Some(k) => Ok(SectionAttrs { kind: Some(k), ..st }),
                None => Err(SectionParseFailure::UnknownKind(value)),
            }
        }
    } else if key == "start"@ {
        match parse_u32_spec(value) {
            Some(v) => Ok(SectionAttrs { start: Some(v), ..st }),
            None => Err(SectionParseFailure::ParseStartAddress(value)),
        }
    } else if key == "end"@ {
        match parse_u32_spec(value) {
            Some(v) => Ok(SectionAttrs { end: Some(v), ..st }),
            None => Err(SectionParseFailure::ParseEndAddress(value)),
        }
    } else if key == "align"@ {
        if inherit {
            Err(SectionParseFailure::InheritedAttribute("align"@))
        } else {
            match parse_u32_spec(value) {
                Some(v) => Ok(SectionAttrs { align: Some(v), ..st }),
                None => Err(SectionParseFailure::ParseAlignment(value)),
            }
        }
    } else {
        Err(SectionParseFailure::UnknownAttribute(key))
    }
}

pub open spec fn no_attrs() -> SectionAttrs {
    SectionAttrs { kind: None, start: None, end: None, align: None }
}

/// Reads the attribute words `ws` from left to right; the first error stops it.
pub open spec fn attrs_scan(ws: Seq<Seq<char>>, inherit: bool) -> Result<SectionAttrs, SectionParseFailure>
    decreases ws.len(),
{
    if ws.len() == 0 {
        Ok(no_attrs())
    } else {
        match attrs_scan(ws.drop_last(), inherit) {
            Ok(st) => attr_step(st, attr_key(ws.last()), attr_value(ws.last()), inherit),
            Err(e) => Err(e),
        }
    }
}

proof fn lemma_scan_err_extends(ws: Seq<Seq<char>>, k: int, inherit: bool)
    requires
        0 <= k <= ws.len(),
        attrs_scan(ws.subrange(0, k), inherit) is Err,
    ensures
        attrs_scan(ws, inherit) == attrs_scan(ws.subrange(0, k), inherit),
    decreases ws.len() - k,
{
    if k < ws.len() {
        let next = ws.subrange(0, k + 1);
        assert(next.drop_last() =~= ws.subrange(0, k));
        lemma_scan_err_extends(ws, k + 1, inherit);
    } else {
        assert(ws.subrange(0, k) =~= ws);
    }
}

/// What a header line parses to: nothing for a blank line, else a section
/// named by its first word, with all four attributes required.
pub open spec fn parse_section_spec(line: Seq<char>) -> Result<Option<SectionSpec>, SectionParseFailure> {
    let ws = words(line);
    if ws.len() == 0 {
        Ok(None)
    } else {
        match attrs_scan(ws.drop_first(), false) {
            Err(e) => Err(e),
            Ok(st) => if st.kind is None {
                Err(SectionParseFailure::MissingAttribute("kind"@))
            } else if st.start is None {
                Err(SectionParseFailure::MissingAttribute("start"@))
            } else if st.end is None {
                Err(SectionParseFailure::MissingAttribute("end"@))
            } else if st.align is None {
                Err(SectionParseFailure::MissingAttribute("align"@))
            } else {
                match new_section_spec(ws[0], st.kind->0, st.start->0, st.end->0, st.align->0) {
                    Ok(s) => Ok(Some(s)),
                    Err(f) => Err(SectionParseFailure::Section(f)),
                }
            },
        }
    }
}

/// The index of the section of `s` named `name` (unique in a well-formed table).
pub open spec fn index_of_name(s: Seq<SectionSpec>, name: Seq<char>) -> int {
    choose|j: int| 0 <= j < s.len() && (#[trigger] s[j]).name == name
}

/// What a file's section line parses to, against the header's sections:
/// nothing for a blank line, else the header section of that name moved to
/// the line's `start` and `end`.
pub open spec fn parse_inherit_spec(line: Seq<char>, header: Seq<SectionSpec>) -> Result<
    Option<SectionSpec>,
    SectionParseFailure,
> {
    let ws = words(line);
    if ws.len() == 0 {
        Ok(None)
    } else if !has_name(header, ws[0]) {
        Err(SectionParseFailure::NotInHeader(ws[0]))
    } else {
        let t = header[index_of_name(header, ws[0])];
        match attrs_scan(ws.drop_first(), true) {
            Err(e) => Err(e),
            Ok(st) => if st.start is None {
                Err(SectionParseFailure::MissingAttribute("start"@))
            } else if st.end is None {
                Err(SectionParseFailure::MissingAttribute("end"@))
            } else {
                match new_section_spec(t.name, t.kind, st.start->0, st.end->0, t.alignment) {
                    Ok(s) => Ok(Some(s)),
                    Err(f) => Err(SectionParseFailure::Section(f)),
                }
            },
        }
    }
}

fn missing(context: &ParseContext, attribute: &str) -> (r: SectionParseError)
    ensures
        r.failure() == SectionParseFailure::MissingAttribute(attribute@),
        r.in_context(context.file_path@, context.row),
{
    SectionParseError::MissingAttribute { context: context.duplicate(), attribute: attribute.to_owned() }
}

fn read_address(value: &str, key: &str, context: &ParseContext) -> (r: Result<u32, SectionParseError>)
    ensures
        match r {
            Ok(v) => parse_u32_spec(value@) == Some(v),
            Err(e) => parse_u32_spec(value@).is_none() && e.in_context(context.file_path@, context.row) && e.failure()
                == (if key@ == "start"@ {
                SectionParseFailure::ParseStartAddress(value@)
            } else if key@ == "end"@ {
                SectionParseFailure::ParseEndAddress(value@)
            } else {
                SectionParseFailure::ParseAlignment(value@)
            }),
        },
{
    match parse_u32(value) {
        Some(v) => Ok(v),
        None => {
            let c = context.duplicate();
            let v = value.to_owned();
            if str_eq(key, "start") {
                Err(SectionParseError::ParseStartAddress { context: c, value: v })
            } else if str_eq(key, "end") {
                Err(SectionParseError::ParseEndAddress { context: c, value: v })
            } else {
                Err(SectionParseError::ParseAlignment { context: c, value: v })
            }
        },
    }
}

fn apply_attribute(key: &str, value: &str, st: SectionAttrs, context: &ParseContext) -> (r: Result<
    SectionAttrs,
    SectionParseError,
>)
    ensures
        match r {
            Ok(n) => attr_step(st, key@, value@, false) == Ok::<SectionAttrs, SectionParseFailure>(n),
            Err(e) => attr_step(st, key@, value@, false) == Err::<SectionAttrs, SectionParseFailure>(e.failure())
                && e.in_context(context.file_path@, context.row),
        },
{
    if str_eq(key, "kind") {
        match SectionKind::parse(value, context) {
            Ok(k) => Ok(SectionAttrs { kind: Some(k), ..st }),
            Err(e) => Err(SectionParseError::SectionKind { source: e }),
        }
    } else if str_eq(key, "start") {
        let v = read_address(value, key, context)?;
        Ok(SectionAttrs { start: Some(v), ..st })
    } else if str_eq(key, "end") {
        let v = read_address(value, key, context)?;
        Ok(SectionAttrs { end: Some(v), ..st })
    } else if str_eq(key, "align") {
        let v = read_address(value, key, context)?;
        Ok(SectionAttrs { align: Some(v), ..st })
    } else {
        Err(SectionParseError::UnknownAttribute { context: context.duplicate(), key: key.to_owned() })
    }
}

fn apply_inherited_attribute(key: &str, value: &str, st: SectionAttrs, context: &ParseContext) -> (r: Result<
    SectionAttrs,
    SectionInheritParseError,
>)
    ensures
        match r {
            Ok(n) => attr_step(st, key@, value@, true) == Ok::<SectionAttrs, SectionParseFailure>(n),
            Err(e) => attr_step(st, key@, value@, true) == Err::<SectionAttrs, SectionParseFailure>(e.failure())
                && e.in_context(context.file_path@, context.row),
        },
{
    if str_eq(key, "kind") {
        Err(SectionInheritParseError::InheritedAttribute { context: context.duplicate(), attribute: key.to_owned() })
    } else if str_eq(key, "start") {
        match read_address(value, key, context) {
            Ok(v) => Ok(SectionAttrs { start: Some(v), ..st }),
            Err(e) => Err(SectionInheritParseError::SectionParse { source: e }),
        }
    } else if str_eq(key, "end") {
        match read_address(value, key, context) {
            Ok(v) => Ok(SectionAttrs { end: Some(v), ..st }),
            Err(e) => Err(SectionInheritParseError::SectionParse { source: e }),
        }
    } else if str_eq(key, "align") {
        Err(SectionInheritParseError::InheritedAttribute { context: context.duplicate(), attribute: key.to_owned() })
    } else {
        Err(
            SectionInheritParseError::SectionParse {
                source: SectionParseError::UnknownAttribute { context: context.duplicate(), key: key.to_owned() },
            },
        )
    }
}


impl Section {
    /// Parses a header line `name kind:K start:S end:E align:A`.
    pub fn parse(line: &str, context: &ParseContext) -> (r: Result<Option<Section>, SectionParseError>)
        ensures
            match r {
                Ok(None) => parse_section_spec(line@) == Ok::<Option<SectionSpec>, SectionParseFailure>(None),
                Ok(Some(s)) => parse_section_spec(line@) == Ok::<Option<SectionSpec>, SectionParseFailure>(
                    Some(s@),
                ) && s@.wf(),
                Err(e) => parse_section_spec(line@) == Err::<Option<SectionSpec>, SectionParseFailure>(
                    e.failure(),
                ) && e.in_context(context.file_path@, context.row),
            },
    {
        let spans = split_words(line);
        let ghost ws = words(line@);
        proof {
            if spans.len() > 0 {
                lemma_word_at(line@, spans@, 0);
            }
        }
        if spans.len() == 0 {
            return Ok(None);
        }
        let ghost attrs = ws.drop_first();
        let mut st = SectionAttrs { kind: None, start: None, end: None, align: None };
        let mut k: usize = 1;
        assert(attrs.subrange(0, 0) =~= Seq::<Seq<char>>::empty());
        while k < spans.len()
            invariant
                1 <= k <= spans@.len(),
                ws.len() == spans@.len(),
                attrs == ws.drop_first(),
                ws == words(line@),
                spans@.len() == word_spans(line@).len(),
                forall|i: int|
                    0 <= i < spans@.len() ==> (#[trigger] spans@[i]).0 as int == word_spans(line@)[i].0
                        && spans@[i].1 as int == word_spans(line@)[i].1,
                forall|i: int| 0 <= i < spans@.len() ==> (#[trigger] spans@[i]).0 < spans@[i].1 <= line@.len(),
                attrs_scan(attrs.subrange(0, k - 1), false) == Ok::<SectionAttrs, SectionParseFailure>(st),
            decreases spans@.len() - k,
        {
            let (a, b) = spans[k];
            proof {
                lemma_word_at(line@, spans@, k as int);
            }
            let (key, value) = split_attribute(line, a, b);
            let ghost next = attrs.subrange(0, k as int);
            assert(next.drop_last() =~= attrs.subrange(0, k - 1));
            assert(next.last() == ws[k as int]);
            match apply_attribute(key, value, st, context) {
                Ok(n) => {
                    st = n;
                },
                Err(e) => {
                    proof {
                        lemma_scan_err_extends(attrs, k as int, false);
                    }
                    return Err(e);
                },
            }
            k += 1;
        }
        assert(attrs.subrange(0, k - 1) =~= attrs);
        let (a, b) = spans[0];
        let name = line.substring_char(a, b).to_owned();
        let kind = match st.kind {
            Some(v) => v,
            None => {
                return Err(missing(context, "kind"));
            },
        };
        let start = match st.start {
            Some(v) => v,
            None => {
                return Err(missing(context, "start"));
            },
        };
        let end = match st.end {
            Some(v) => v,
            None => {
                return Err(missing(context, "end"));
            },
        };
        let align = match st.align {
            Some(v) => v,
            None => {
                return Err(missing(context, "align"));
            },
        };
        match Section::new(name, kind, start, end, align) {
            Ok(s) => Ok(Some(s)),
            Err(error) => Err(SectionParseError::Section { context: context.duplicate(), error }),
        }
    }

    /// Parses a file's section line `name start:S end:E`, taking the kind and
    /// alignment from the header section of the same name.
    pub fn parse_inherit(line: &str, context: &ParseContext, sections: &Sections) -> (r: Result<
        Option<Section>,
        SectionInheritParseError,
    >)
        requires
            sections.wf(),
        ensures
            match r {
                Ok(None) => parse_inherit_spec(line@, sections@) == Ok::<Option<SectionSpec>, SectionParseFailure>(
                    None,
                ),
                Ok(Some(s)) => parse_inherit_spec(line@, sections@) == Ok::<
                    Option<SectionSpec>,
                    SectionParseFailure,
                >(Some(s@)) && s@.wf(),
                Err(e) => parse_inherit_spec(line@, sections@) == Err::<Option<SectionSpec>, SectionParseFailure>(
                    e.failure(),
                ) && e.in_context(context.file_path@, context.row),
            },
    {
        let spans = split_words(line);
        let ghost ws = words(line@);
        proof {
            if spans.len() > 0 {
                lemma_word_at(line@, spans@, 0);
            }
        }
        if spans.len() == 0 {
            return Ok(None);
        }
        let (a, b) = spans[0];
        let name = line.substring_char(a, b);
        let template = match sections.by_name(name) {
            Some((_, t)) => t,
            None => {
                return Err(
                    SectionInheritParseError::NotInHeader { context: context.duplicate(), name: name.to_owned() },
                );
            },
        };
        proof {
            let j = index_of_name(sections@, ws[0]);
            assert(has_name(sections@, ws[0]));
            assert(sections@[j].name == template@.name);
        }
        let ghost attrs = ws.drop_first();
        let mut st = SectionAttrs { kind: None, start: None, end: None, align: None };
        let mut k: usize = 1;
        assert(attrs.subrange(0, 0) =~= Seq::<Seq<char>>::empty());
        while k < spans.len()
            invariant
                1 <= k <= spans@.len(),
                ws.len() == spans@.len(),
                attrs == ws.drop_first(),
                ws == words(line@),
                spans@.len() == word_spans(line@).len(),
                forall|i: int|
                    0 <= i < spans@.len() ==> (#[trigger] spans@[i]).0 as int == word_spans(line@)[i].0
                        && spans@[i].1 as int == word_spans(line@)[i].1,
                forall|i: int| 0 <= i < spans@.len() ==> (#[trigger] spans@[i]).0 < spans@[i].1 <= line@.len(),
                attrs_scan(attrs.subrange(0, k - 1), true) == Ok::<SectionAttrs, SectionParseFailure>(st),
                has_name(sections@, ws[0]),
            decreases spans@.len() - k,
        {
            let (a, b) = spans[k];
            proof {
                lemma_word_at(line@, spans@, k as int);
            }
            let (key, value) = split_attribute(line, a, b);
            let ghost next = attrs.subrange(0, k as int);
            assert(next.drop_last() =~= attrs.subrange(0, k - 1));
            assert(next.last() == ws[k as int]);
            match apply_inherited_attribute(key, value, st, context) {
                Ok(n) => {
                    st = n;
                },
                Err(e) => {
                    proof {
                        lemma_scan_err_extends(attrs, k as int, true);
                    }
                    return Err(e);
                },
            }
            k += 1;
        }
        assert(attrs.subrange(0, k - 1) =~= attrs);
        let start = match st.start {
            Some(v) => v,
            None => {
                return Err(SectionInheritParseError::SectionParse { source: missing(context, "start") });
            },
        };
        let end = match st.end {
            Some(v) => v,
            None => {
                return Err(SectionInheritParseError::SectionParse { source: missing(context, "end") });
            },
        };
        match Section::inherit(template, start, end) {
            Ok(s) => Ok(Some(s)),
            Err(error) => Err(
                SectionInheritParseError::SectionParse {
                    source: SectionParseError::Section { context: context.duplicate(), error },
                },
            ),
        }
    }
}

/// The total size of the bss sections of `s`.
pub open spec fn bss_total(s: Seq<SectionSpec>) -> int
    decreases s.len(),
{
    if s.len() == 0 {
        0
    } else {
        bss_total(s.drop_last()) + if s.last().kind == SectionKind::Bss {
            s.last().end - s.last().start
        } else {
            0
        }
    }
}

/// Whether `s` holds a bss section.
pub open spec fn has_bss(s: Seq<SectionSpec>) -> bool {
    exists|k: int| 0 <= k < s.len() && (#[trigger] s[k]).kind == SectionKind::Bss
}

/// A table is well formed exactly when each section added to it kept it so:
/// a section joins a well-formed table without breaking it if and only if
/// its name is new and it overlaps no section there.
pub proof fn lemma_sections_uniqueness(s: Seq<SectionSpec>, t: SectionSpec)
    requires
        sections_wf(s),
        t.wf(),
    ensures
        sections_wf(s.push(t)) <==> (!has_name(s, t.name) && !has_overlap(s, t)),
{
    let u = s.push(t);
    let n = s.len() as int;
    if has_name(s, t.name) {
        let j = choose|j: int| 0 <= j < s.len() && (#[trigger] s[j]).name == t.name;
        assert(u[j].name == u[n].name);
    } else if has_overlap(s, t) {
        let j = choose|j: int| 0 <= j < s.len() && (#[trigger] s[j]).overlaps(t);
        assert(u[j].overlaps(u[n]));
    } else {
        assert forall|i: int, j: int|
            0 <= i < u.len() && 0 <= j < u.len() && i != j implies (#[trigger] u[i]).name != (#[trigger] u[j]).name by {
            if i == n {
                assert(s[j].name != t.name);
            } else if j == n {
                assert(s[i].name != t.name);
            }
        }
        assert forall|i: int, j: int|
            0 <= i < u.len() && 0 <= j < u.len() && i != j implies !(#[trigger] u[i]).overlaps(#[trigger] u[j]) by {
            if i == n {
                assert(!s[j].overlaps(t));
            } else if j == n {
                assert(!s[i].overlaps(t));
            }
        }
    }
}

/// In a well-formed table a name picks out one section: two sections with
/// the same name are the same section.
pub proof fn lemma_name_identifies(s: Seq<SectionSpec>, i: int, j: int)
    requires
        sections_wf(s),
        0 <= i < s.len(),
        0 <= j < s.len(),
        s[i].name == s[j].name,
    ensures
        i == j,
{
}

/// In a well-formed table every address of a section is found in that
/// section and no other.
pub proof fn lemma_containment(s: Seq<SectionSpec>, k: int, address: u32)
    requires
        sections_wf(s),
        0 <= k < s.len(),
        s[k].contains(address),
    ensures
        first_containing(s, address) == Some(k),
{
    lemma_first_containing(s, address);
    match first_containing(s, address) {
        Some(i) => {
            if i != k {
                assert(s[i].overlaps(s[k]));
            }
        },
        None => {},
    }
}

impl Sections {
    /// The sections ordered by start address.
    pub fn sorted_by_address(&self) -> (r: Vec<&Section>)
        ensures
            r@.len() == self@.len(),
            starts_sorted(r@),
            same_sections(r@, self@),
    {
        let n = self.sections.len();
        let mut r: Vec<&Section> = Vec::new();
        let mut i: usize = 0;
        proof {
            reveal(covers);
            reveal(within);
        }
        while i < n
            invariant
                n == self@.len(),
                i <= n,
                r@.len() == i,
                starts_sorted(r@),
                covers(r@, self@, i as int),
                within(r@, self@, i as int),
            decreases n - i,
        {
            let s = &self.sections[i];
            assert(s@ == self@[i as int]);
            let ghost old_r = r@;
            let p = insert_by_start(&mut r, s);
            proof {
                lemma_cover_step(old_r, r@, p as int, s, self@, i as int);
            }
            i += 1;
        }
        proof {
            reveal(covers);
            reveal(within);
            reveal(same_sections);
        }
        r
    }

    /// The lowest start address, if there is any section.
    pub fn base_address(&self) -> (r: Option<u32>)
        ensures
            match r {
                Some(m) => (exists|k: int| 0 <= k < self@.len() && (#[trigger] self@[k]).start == m) && forall|k: int|
                    0 <= k < self@.len() ==> m <= (#[trigger] self@[k]).start,
                None => self@.len() == 0,
            },
    {
        let n = self.sections.len();
        if n == 0 {
            return None;
        }
        let mut m = self.sections[0].start_address;
        assert(self@[0].start == m);
        let mut i: usize = 1;
        while i < n
            invariant
                n == self@.len(),
                1 <= i <= n,
                exists|k: int| 0 <= k < i && (#[trigger] self@[k]).start == m,
                forall|k: int| 0 <= k < i ==> m <= (#[trigger] self@[k]).start,
            decreases n - i,
        {
            assert(self@[i as int] == self.sections@[i as int]@);
            if self.sections[i].start_address < m {
                m = self.sections[i].start_address;
            }
            i += 1;
        }
        Some(m)
    }

    /// The highest end address, if there is any section.
    pub fn end_address(&self) -> (r: Option<u32>)
        ensures
            match r {
                Some(m) => (exists|k: int| 0 <= k < self@.len() && (#[trigger] self@[k]).end == m) && forall|k: int|
                    0 <= k < self@.len() ==> (#[trigger] self@[k]).end <= m,
                None => self@.len() == 0,
            },
    {
        let n = self.sections.len();
        if n == 0 {
            return None;
        }
        let mut m = self.sections[0].end_address;
        assert(self@[0].end == m);
        let mut i: usize = 1;
        while i < n
            invariant
                n == self@.len(),
                1 <= i <= n,
                exists|k: int| 0 <= k < i && (#[trigger] self@[k]).end == m,
                forall|k: int| 0 <= k < i ==> (#[trigger] self@[k]).end <= m,
            decreases n - i,
        {
            assert(self@[i as int] == self.sections@[i as int]@);
            if self.sections[i].end_address > m {
                m = self.sections[i].end_address;
            }
            i += 1;
        }
        Some(m)
    }

    /// The total size of the bss sections, saturating at `u32::MAX`.
    pub fn bss_size(&self) -> (r: u32)
        requires
            self.wf(),
        ensures
            r == (if bss_total(self@) <= u32::MAX {
                bss_total(self@)
            } else {
                u32::MAX as int
            }),
    {
        let n = self.sections.len();
        let mut total: u32 = 0;
        let mut i: usize = 0;
        assert(self@.subrange(0, 0) =~= Seq::<SectionSpec>::empty());
        while i < n
            invariant
                n == self@.len(),
                i <= n,
                self.wf(),
                total == (if bss_total(self@.subrange(0, i as int)) <= u32::MAX {
                    bss_total(self@.subrange(0, i as int))
                } else {
                    u32::MAX as int
                }),
            decreases n - i,
        {
            let ghost pre = self@.subrange(0, i as int);
            let ghost cur = self@.subrange(0, i + 1);
            assert(cur.drop_last() =~= pre);
            assert(self@[i as int] == self.sections@[i as int]@);
            proof {
                assert(self@[i as int].wf());
                lemma_bss_total_nonneg(pre);
            }
            let s = &self.sections[i];
            if s.kind == SectionKind::Bss {
                total = total.saturating_add(s.size());
            }
            i += 1;
        }
        assert(self@.subrange(0, n as int) =~= self@);
        total
    }

    /// The range from the lowest start to the highest end of the bss
    /// sections, if there are any.
    pub fn bss_range(&self) -> (r: Option<std::ops::Range<u32>>)
        ensures
            match r {
                Some(range) => (exists|k: int|
                    0 <= k < self@.len() && (#[trigger] self@[k]).kind == SectionKind::Bss && self@[k].start
                        == range.start) && (exists|k: int|
                    0 <= k < self@.len() && (#[trigger] self@[k]).kind == SectionKind::Bss && self@[k].end
                        == range.end) && forall|k: int|
                    0 <= k < self@.len() && (#[trigger] self@[k]).kind == SectionKind::Bss ==> range.start
                        <= self@[k].start && self@[k].end <= range.end,
                None => !has_bss(self@),
            },
    {
        let n = self.sections.len();
        let mut found: Option<(u32, u32)> = None;
        let mut i: usize = 0;
        while i < n
            invariant
                n == self@.len(),
                i <= n,
                match found {
                    Some((lo, hi)) => (exists|k: int|
                        0 <= k < i && (#[trigger] self@[k]).kind == SectionKind::Bss && self@[k].start == lo) && (
                    exists|k: int| 0 <= k < i && (#[trigger] self@[k]).kind == SectionKind::Bss && self@[k].end == hi)
                        && forall|k: int|
                        0 <= k < i && (#[trigger] self@[k]).kind == SectionKind::Bss ==> lo <= self@[k].start
                            && self@[k].end <= hi,
                    None => forall|k: int| 0 <= k < i ==> (#[trigger] self@[k]).kind != SectionKind::Bss,
                },
            decreases n - i,
        {
            assert(self@[i as int] == self.sections@[i as int]@);
            let s = &self.sections[i];
            if s.kind == SectionKind::Bss {
                found = match found {
                    None => Some((s.start_address, s.end_address)),
                    Some((lo, hi)) => Some(
                        (
                            if s.start_address < lo {
                                s.start_address
                            } else {
                                lo
                            },
                            if s.end_address > hi {
                                s.end_address
                            } else {
                                hi
                            },
                        ),
                    ),
                };
            }
            i += 1;
        }
        match found {
            Some((lo, hi)) => Some(std::ops::Range { start: lo, end: hi }),
            None => None,
        }
    }
}

/// Each of the first `i` sections of `s` is pointed to by `r`.
#[verifier::opaque]
pub open spec fn covers(r: Seq<&Section>, s: Seq<SectionSpec>, i: int) -> bool {
    forall|k: int| 0 <= k < i ==> exists|j: int| 0 <= j < r.len() && (#[trigger] r[j])@ == #[trigger] s[k]
}

/// Each section that `r` points to is one of the first `i` sections of `s`.
#[verifier::opaque]
pub open spec fn within(r: Seq<&Section>, s: Seq<SectionSpec>, i: int) -> bool {
    forall|j: int| 0 <= j < r.len() ==> exists|k: int| 0 <= k < i && (#[trigger] r[j])@ == #[trigger] s[k]
}

/// `r` points to the sections of `s`, each of them and no other.
#[verifier::opaque]
pub open spec fn same_sections(r: Seq<&Section>, s: Seq<SectionSpec>) -> bool {
    covers(r, s, s.len() as int) && within(r, s, s.len() as int)
}

proof fn lemma_cover_step(old_r: Seq<&Section>, r: Seq<&Section>, p: int, sec: &Section, s: Seq<SectionSpec>, i: int)
    requires
        0 <= p <= old_r.len(),
        r == old_r.insert(p, sec),
        0 <= i < s.len(),
        sec@ == s[i],
        covers(old_r, s, i),
        within(old_r, s, i),
    ensures
        covers(r, s, i + 1),
        within(r, s, i + 1),
{
    lemma_covers_step(old_r, r, p, sec, s, i);
    lemma_within_step(old_r, r, p, sec, s, i);
}

proof fn lemma_covers_step(old_r: Seq<&Section>, r: Seq<&Section>, p: int, sec: &Section, s: Seq<SectionSpec>, i: int)
    requires
        0 <= p <= old_r.len(),
        r == old_r.insert(p, sec),
        0 <= i < s.len(),
        sec@ == s[i],
        covers(old_r, s, i),
    ensures
        covers(r, s, i + 1),
{
    reveal(covers);
    assert forall|k: int| 0 <= k < i + 1 implies exists|j: int| 0 <= j < r.len() && (#[trigger] r[j])@ == #[trigger] s[k] by {
        if k == i {
            assert(r[p]@ == s[k]);
        } else {
            assert(0 <= k < i);
            let j = choose|j: int| 0 <= j < old_r.len() && (#[trigger] old_r[j])@ == s[k];
            if j < p {
                assert(r[j] == old_r[j]);
            } else {
                assert(r[j + 1] == old_r[j]);
            }
        }
    }
}

proof fn lemma_within_step(old_r: Seq<&Section>, r: Seq<&Section>, p: int, sec: &Section, s: Seq<SectionSpec>, i: int)
    requires
        0 <= p <= old_r.len(),
        r == old_r.insert(p, sec),
        0 <= i < s.len(),
        sec@ == s[i],
        within(old_r, s, i),
    ensures
        within(r, s, i + 1),
{
    reveal(within);
    assert forall|j: int| 0 <= j < r.len() implies exists|k: int| 0 <= k < i + 1 && (#[trigger] r[j])@ == #[trigger] s[k] by {
        if j == p {
            assert(r[j]@ == s[i]);
        } else {
            let j0 = if j < p { j } else { j - 1 };
            assert(r[j] == old_r[j0]);
            assert(0 <= j0 < old_r.len());
            let k = choose|k: int| 0 <= k < i && (#[trigger] old_r[j0])@ == s[k];
            assert(r[j]@ == s[k]);
        }
    }
}

/// Whether the sections that `r` points to ascend by start address.
pub open spec fn starts_sorted(r: Seq<&Section>) -> bool {
    forall|a: int, b: int| 0 <= a < b < r.len() ==> (#[trigger] r[a])@.start <= (#[trigger] r[b])@.start
}

fn insert_by_start<'a>(r: &mut Vec<&'a Section>, s: &'a Section) -> (p: usize)
    requires
        starts_sorted(old(r)@),
    ensures
        p <= old(r)@.len(),
        final(r)@ == old(r)@.insert(p as int, s),
        starts_sorted(final(r)@),
{
    let mut p: usize = r.len();
    while p > 0 && r[p - 1].start_address > s.start_address
        invariant
            p <= r@.len(),
            r@ == old(r)@,
            forall|k: int| p <= k < r@.len() ==> (#[trigger] r@[k])@.start > s@.start,
        decreases p,
    {
        p -= 1;
    }
    let ghost old_r = r@;
    assert forall|k: int| 0 <= k < p implies (#[trigger] old_r[k])@.start <= s@.start by {
        if k < p - 1 {
            assert(old_r[k]@.start <= old_r[p - 1]@.start);
        }
    }
    r.insert(p, s);
    assert forall|a: int, b: int| 0 <= a < b < r@.len() implies (#[trigger] r@[a])@.start <= (
    #[trigger] r@[b])@.start by {
        if a < p && b > p {
            assert(old_r[b - 1]@.start > s@.start);
        } else if a < p && b < p {
            assert(r@[a] == old_r[a] && r@[b] == old_r[b]);
        } else if a > p {
            assert(r@[a] == old_r[a - 1] && r@[b] == old_r[b - 1]);
        }
    }
    p
}

proof fn lemma_bss_total_nonneg(s: Seq<SectionSpec>)
    requires
        forall|i: int| 0 <= i < s.len() ==> (#[trigger] s[i]).wf(),
    ensures
        bss_total(s) >= 0,
    decreases s.len(),
{
    if s.len() > 0 {
        lemma_bss_total_nonneg(s.drop_last());
    }
}

} // verus!
