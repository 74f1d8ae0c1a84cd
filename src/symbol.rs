//! Symbols of a module, the per-module symbol maps and the registry of all maps.
use vstd::prelude::*;

verus! {

/// The autoload regions that a ROM can copy into fast memory at boot.
#[derive(Clone, Copy, Debug, PartialEq, Eq, Structural)]
pub enum AutoloadKind {
    Itcm,
    Dtcm,
    Unknown(u32),
}

/// Which module a piece of code belongs to.
#[derive(Clone, Copy, Debug, PartialEq, Eq, Structural)]
pub enum ModuleKind {
    Arm9,
    Autoload(AutoloadKind),
    Overlay(u16),
}

#[derive(Clone, Copy, Debug, PartialEq, Eq, Structural)]
pub enum InstructionMode {
    Arm,
    Thumb,
}

impl InstructionMode {
    pub fn from_thumb(thumb: bool) -> (r: InstructionMode)
        ensures
            r == (if thumb {
                InstructionMode::Thumb
            } else {
                InstructionMode::Arm
            }),
    {
        if thumb {
            InstructionMode::Thumb
        } else {
            InstructionMode::Arm
        }
    }
}

#[derive(Clone, Copy, Debug, PartialEq, Eq, Structural)]
pub struct SymFunction {
    pub mode: InstructionMode,
    pub size: u32,
    pub unknown: bool,
}

#[derive(Clone, Copy, Debug, PartialEq, Eq, Structural)]
pub struct SymLabel {
    pub mode: InstructionMode,
}

#[derive(Clone, Copy, Debug, PartialEq, Eq, Structural)]
pub struct SymJumpTable {
    pub size: u32,
    pub code: bool,
}

/// How a data symbol's bytes are written: as bytes of no stated type, or as
/// `count` elements of one size.
#[derive(Clone, Copy, Debug, PartialEq, Eq, Structural)]
pub enum SymData {
    Any,
    Byte { count: Option<u32> },
    Short { count: Option<u32> },
    Word { count: Option<u32> },
}

#[derive(Clone, Copy, Debug, PartialEq, Eq, Structural)]
pub struct SymBss {
    pub size: Option<u32>,
}

#[derive(Clone, Copy, Debug, PartialEq, Eq, Structural)]
pub enum SymbolKind {
    Function(SymFunction),
    Label(SymLabel),
    PoolConstant,
    JumpTable(SymJumpTable),
    Data(SymData),
    Bss(SymBss),
}

impl SymData {
    pub open spec fn spec_element_size(&self) -> u32 {
        match self {
            SymData::Any => 1,
            SymData::Byte { .. } => 1,
            SymData::Short { .. } => 2,
            SymData::Word { .. } => 4,
        }
    }

    /// The size in bytes of one element.
    #[verifier::when_used_as_spec(spec_element_size)]
    pub fn element_size(&self) -> (r: u32)
        ensures
            r == self.spec_element_size(),
    {
        match self {
            SymData::Any => 1,
            SymData::Byte { .. } => 1,
            SymData::Short { .. } => 2,
            SymData::Word { .. } => 4,
        }
    }

    pub open spec fn spec_size(&self) -> Option<u64> {
        match self {
            SymData::Any => None,
            SymData::Byte { count } => match count {
                Some(c) => Some(c as u64),
                None => None,
            },
            SymData::Short { count } => match count {
                Some(c) => Some((c * 2) as u64),
                None => None,
            },
            SymData::Word { count } => match count {
                Some(c) => Some((c * 4) as u64),
                None => None,
            },
        }
    }

    /// The size in bytes, where the element count is known.
    #[verifier::when_used_as_spec(spec_size)]
    pub fn size(&self) -> (r: Option<u64>)
        ensures
            r == self.spec_size(),
    {
        match self {
            SymData::Any => None,
            SymData::Byte { count } => match count {
                Some(c) => Some(*c as u64),
                None => None,
            },
            SymData::Short { count } => match count {
                Some(c) => Some(*c as u64 * 2),
                None => None,
            },
            SymData::Word { count } => match count {
                Some(c) => Some(*c as u64 * 4),
                None => None,
            },
        }
    }
}

pub struct Symbol {
    pub name: String,
    pub kind: SymbolKind,
    pub addr: u32,
    pub ambiguous: bool,
}

/// The ARM ELF mapping symbol that marks the region a symbol starts.
pub open spec fn mapping_symbol_spec(kind: SymbolKind) -> Option<Seq<char>> {
    match kind {
        SymbolKind::Function(f) => Some(
            if f.mode == InstructionMode::Arm {
                "$a"@
            } else {
                "$t"@
            },
        ),
        SymbolKind::Label(l) => Some(
            if l.mode == InstructionMode::Arm {
                "$a"@
            } else {
                "$t"@
            },
        ),
        SymbolKind::PoolConstant => Some("$d"@),
        SymbolKind::JumpTable(t) => Some(
            if t.code {
                "$a"@
            } else {
                "$d"@
            },
        ),
        SymbolKind::Data(_) => Some("$d"@),
        SymbolKind::Bss(_) => None,
    }
}

impl Symbol {
    /// Whether this is a function whose bytes `[addr, addr + size)` hold `address`.
    pub open spec fn function_contains(&self, address: u32) -> bool {
        match self.kind {
            SymbolKind::Function(f) => self.addr <= address < self.addr + f.size,
            _ => false,
        }
    }

    /// A function symbol; the address is kept with its thumb bit cleared.
    pub fn new_function(name: String, addr: u32, thumb: bool, size: u32) -> (r: Symbol)
        ensures
            r.name@ == name@,
            r.addr == addr & !1u32,
            r.kind == SymbolKind::Function(
                SymFunction { mode: if thumb {
                    InstructionMode::Thumb
                } else {
                    InstructionMode::Arm
                }, size, unknown: false },
            ),
            !r.ambiguous,
    {
        Symbol {
            name,
            kind: SymbolKind::Function(SymFunction { mode: InstructionMode::from_thumb(thumb), size, unknown: false }),
            addr: addr & !1u32,
            ambiguous: false,
        }
    }

    /// The mapping symbol for this symbol: `$a` or `$t` for code by its mode,
    /// `$d` for data, none for bss.
    pub fn mapping_symbol_name(&self) -> (r: Option<&'static str>)
        ensures
            match r {
                Some(s) => mapping_symbol_spec(self.kind) == Some(s@),
                None => mapping_symbol_spec(self.kind).is_none(),
            },
    {
        match self.kind {
            SymbolKind::Function(SymFunction { mode, .. }) => match mode {
                InstructionMode::Arm => Some("$a"),
                InstructionMode::Thumb => Some("$t"),
            },
            SymbolKind::Label(SymLabel { mode }) => match mode {
                InstructionMode::Arm => Some("$a"),
                InstructionMode::Thumb => Some("$t"),
            },
            SymbolKind::PoolConstant => Some("$d"),
            SymbolKind::JumpTable(jump_table) => {
                if jump_table.code {
                    Some("$a")
                } else {
                    Some("$d")
                }
            },
            SymbolKind::Data(_) => Some("$d"),
            SymbolKind::Bss(_) => None,
        }
    }
}

/// Position of a symbol in a `SymbolMap`.
#[derive(Clone, Copy, Debug, PartialEq, Eq)]
pub struct SymbolIndex(pub usize);

/// The symbols of one module, in ascending address order; symbols at one
/// address keep the order they were added in.
pub struct SymbolMap {
    symbols: Vec<Symbol>,
}

/// Whether the addresses of `s` ascend.
pub open spec fn addr_sorted(s: Seq<Symbol>) -> bool {
    forall|i: int, j: int| 0 <= i < j < s.len() ==> (#[trigger] s[i]).addr <= (#[trigger] s[j]).addr
}

/// The index of the first symbol of `s` at `address`, if any.
pub open spec fn first_at(s: Seq<Symbol>, address: u32) -> Option<int>
    decreases s.len(),
{
    if s.len() == 0 {
        None
    } else {
        match first_at(s.drop_last(), address) {
            Some(i) => Some(i),
            None => if s.last().addr == address {
                Some(s.len() - 1)
            } else {
                None
            },
        }
    }
}

/// The index of the first function of `s` whose bytes hold `address`, if any.
pub open spec fn first_function_at(s: Seq<Symbol>, address: u32) -> Option<int>
    decreases s.len(),
{
    if s.len() == 0 {
        None
    } else {
        match first_function_at(s.drop_last(), address) {
            Some(i) => Some(i),
            None => if s.last().function_contains(address) {
                Some(s.len() - 1)
            } else {
                None
            },
        }
    }
}

proof fn lemma_first_at_step(s: Seq<Symbol>, address: u32, j: int)
    requires
        0 <= j < s.len(),
        first_at(s.subrange(0, j), address).is_none(),
    ensures
        first_at(s.subrange(0, j + 1), address) == (if s[j].addr == address {
            Some(j)
        } else {
            None::<int>
        }),
{
    assert(s.subrange(0, j + 1).drop_last() =~= s.subrange(0, j));
}

proof fn lemma_first_at_extends(s: Seq<Symbol>, address: u32, j: int)
    requires
        0 <= j <= s.len(),
        first_at(s.subrange(0, j), address).is_some(),
    ensures
        first_at(s, address) == first_at(s.subrange(0, j), address),
    decreases s.len() - j,
{
    if j < s.len() {
        assert(s.subrange(0, j + 1).drop_last() =~= s.subrange(0, j));
        lemma_first_at_extends(s, address, j + 1);
    } else {
        assert(s.subrange(0, j) =~= s);
    }
}

proof fn lemma_first_function_step(s: Seq<Symbol>, address: u32, j: int)
    requires
        0 <= j < s.len(),
        first_function_at(s.subrange(0, j), address).is_none(),
    ensures
        first_function_at(s.subrange(0, j + 1), address) == (if s[j].function_contains(address) {
            Some(j)
        } else {
            None::<int>
        }),
{
    assert(s.subrange(0, j + 1).drop_last() =~= s.subrange(0, j));
}

proof fn lemma_first_function_extends(s: Seq<Symbol>, address: u32, j: int)
    requires
        0 <= j <= s.len(),
        first_function_at(s.subrange(0, j), address).is_some(),
    ensures
        first_function_at(s, address) == first_function_at(s.subrange(0, j), address),
    decreases s.len() - j,
{
    if j < s.len() {
        assert(s.subrange(0, j + 1).drop_last() =~= s.subrange(0, j));
        lemma_first_function_extends(s, address, j + 1);
    } else {
        assert(s.subrange(0, j) =~= s);
    }
}

impl View for SymbolMap {
    type V = Seq<Symbol>;

    closed spec fn view(&self) -> Seq<Symbol> {
        self.symbols@
    }
}

impl SymbolMap {
    pub open spec fn wf(&self) -> bool {
        addr_sorted(self@)
    }

    pub fn new() -> (r: SymbolMap)
        ensures
            r@ == Seq::<Symbol>::empty(),
            r.wf(),
    {
        SymbolMap { symbols: Vec::new() }
    }

    /// Adds a symbol after every symbol at an address no greater than its own.
    pub fn add(&mut self, symbol: Symbol) -> (r: SymbolIndex)
        requires
            old(self).wf(),
        ensures
            final(self).wf(),
            r.0 <= old(self)@.len(),
            final(self)@ == old(self)@.insert(r.0 as int, symbol),
            forall|k: int| 0 <= k < r.0 ==> (#[trigger] old(self)@[k]).addr <= symbol.addr,
            forall|k: int| r.0 <= k < old(self)@.len() ==> (#[trigger] old(self)@[k]).addr > symbol.addr,
    {
        let n = self.symbols.len();
        let mut i: usize = n;
        while i > 0 && self.symbols[i - 1].addr > symbol.addr
            invariant
                i <= n == self.symbols@.len(),
                self@ == old(self)@,
                forall|k: int| i <= k < n ==> (#[trigger] self@[k]).addr > symbol.addr,
            decreases i,
        {
            i -= 1;
        }
        let ghost sv = symbol;
        assert(forall|k: int| 0 <= k < i ==> (#[trigger] self@[k]).addr <= sv.addr) by {
            assert forall|k: int| 0 <= k < i implies (#[trigger] self@[k]).addr <= sv.addr by {
                if k < i - 1 {
                    assert(self@[k].addr <= self@[i - 1].addr);
                }
            }
        }
        self.symbols.insert(i, symbol);
        assert forall|a: int, b: int| 0 <= a < b < self@.len() implies (#[trigger] self@[a]).addr <= (
        #[trigger] self@[b]).addr by {
            if a < i as int && b > i as int {
                assert(old(self)@[b - 1].addr > sv.addr);
            }
        }
        SymbolIndex(i)
    }

    /// Adds a symbol unless one is already at its address; either way returns
    /// the index of the symbol that is at that address first.
    pub fn add_if_new_address(&mut self, symbol: Symbol) -> (r: SymbolIndex)
        requires
            old(self).wf(),
        ensures
            final(self).wf(),
            first_at(old(self)@, symbol.addr).is_some() ==> final(self)@ == old(self)@ && first_at(old(self)@, symbol.addr) == Some(r.0 as int),
            first_at(old(self)@, symbol.addr).is_none() ==> final(self)@ == old(self)@.insert(r.0 as int, symbol) && r.0 <= old(self)@.len(),
    {
        match self.by_address(symbol.addr) {
            Some((i, _)) => i,
            None => self.add(symbol),
        }
    }

    /// The first symbol at exactly `address`.
    pub fn by_address(&self, address: u32) -> (r: Option<(SymbolIndex, &Symbol)>)
        ensures
            match r {
                Some((i, s)) => first_at(self@, address) == Some(i.0 as int) && *s == self@[i.0 as int],
                None => first_at(self@, address).is_none(),
            },
    {
        let n = self.symbols.len();
        let mut j: usize = 0;
        assert(self@.subrange(0, 0) =~= Seq::<Symbol>::empty());
        while j < n
            invariant
                n == self@.len(),
                j <= n,
                first_at(self@.subrange(0, j as int), address).is_none(),
            decreases n - j,
        {
            proof {
                lemma_first_at_step(self@, address, j as int);
            }
            if self.symbols[j].addr == address {
                proof {
                    lemma_first_at_extends(self@, address, j + 1);
                }
                return Some((SymbolIndex(j), &self.symbols[j]));
            }
            j += 1;
        }
        assert(self@.subrange(0, n as int) =~= self@);
        None
    }

    /// The first function whose bytes hold `address`.
    pub fn get_function(&self, address: u32) -> (r: Option<(SymbolIndex, &Symbol)>)
        ensures
            match r {
                Some((i, s)) => first_function_at(self@, address) == Some(i.0 as int) && *s == self@[i.0 as int],
                None => first_function_at(self@, address).is_none(),
            },
    {
        let n = self.symbols.len();
        let mut j: usize = 0;
        assert(self@.subrange(0, 0) =~= Seq::<Symbol>::empty());
        while j < n
            invariant
                n == self@.len(),
                j <= n,
                first_function_at(self@.subrange(0, j as int), address).is_none(),
            decreases n - j,
        {
            proof {
                lemma_first_function_step(self@, address, j as int);
            }
            let s = &self.symbols[j];
            let hit = match s.kind {
                SymbolKind::Function(f) => s.addr <= address && (address as u64) < s.addr as u64 + f.size as u64,
                _ => false,
            };
            if hit {
                proof {
                    lemma_first_function_extends(self@, address, j + 1);
                }
                return Some((SymbolIndex(j), s));
            }
            j += 1;
        }
        assert(self@.subrange(0, n as int) =~= self@);
        None
    }

    /// The symbols in ascending address order.
    pub fn iter_by_address(&self) -> (r: &[Symbol])
        ensures
            r@ == self@,
    {
        self.symbols.as_slice()
    }

    pub fn len(&self) -> (r: usize)
        ensures
            r == self@.len(),
    {
        self.symbols.len()
    }
}

/// The symbol maps of every module, keyed by module kind.
pub struct SymbolMaps {
    maps: Vec<(ModuleKind, SymbolMap)>,
}

/// The index of the first entry of `m` for `kind`, if any.
pub open spec fn first_kind(m: Seq<(ModuleKind, SymbolMap)>, kind: ModuleKind) -> Option<int>
    decreases m.len(),
{
    if m.len() == 0 {
        None
    } else {
        match first_kind(m.drop_last(), kind) {
            Some(i) => Some(i),
            None => if m.last().0 == kind {
                Some(m.len() - 1)
            } else {
                None
            },
        }
    }
}

proof fn lemma_first_kind_step(m: Seq<(ModuleKind, SymbolMap)>, kind: ModuleKind, j: int)
    requires
        0 <= j < m.len(),
        first_kind(m.subrange(0, j), kind).is_none(),
    ensures
        first_kind(m.subrange(0, j + 1), kind) == (if m[j].0 == kind {
            Some(j)
        } else {
            None::<int>
        }),
{
    assert(m.subrange(0, j + 1).drop_last() =~= m.subrange(0, j));
}

proof fn lemma_first_kind_extends(m: Seq<(ModuleKind, SymbolMap)>, kind: ModuleKind, j: int)
    requires
        0 <= j <= m.len(),
        first_kind(m.subrange(0, j), kind).is_some(),
    ensures
        first_kind(m, kind) == first_kind(m.subrange(0, j), kind),
    decreases m.len() - j,
{
    if j < m.len() {
        assert(m.subrange(0, j + 1).drop_last() =~= m.subrange(0, j));
        lemma_first_kind_extends(m, kind, j + 1);
    } else {
        assert(m.subrange(0, j) =~= m);
    }
}

impl View for SymbolMaps {
    type V = Seq<(ModuleKind, SymbolMap)>;

    closed spec fn view(&self) -> Seq<(ModuleKind, SymbolMap)> {
        self.maps@
    }
}

/// The symbol map that `maps` holds for `kind`, if any.
pub open spec fn map_of(maps: Seq<(ModuleKind, SymbolMap)>, kind: ModuleKind) -> Option<Seq<Symbol>> {
    match first_kind(maps, kind) {
        Some(i) => Some(maps[i].1@),
        None => None,
    }
}

impl SymbolMaps {
    pub fn new() -> (r: SymbolMaps)
        ensures
            r@ == Seq::<(ModuleKind, SymbolMap)>::empty(),
    {
        SymbolMaps { maps: Vec::new() }
    }

    /// Registers the symbol map of a module.
    pub fn insert(&mut self, kind: ModuleKind, map: SymbolMap)
        ensures
            final(self)@ == old(self)@.push((kind, map)),
    {
        self.maps.push((kind, map));
    }

    /// The symbol map of a module.
    pub fn get(&self, kind: ModuleKind) -> (r: Option<&SymbolMap>)
        ensures
            match r {
                Some(m) => map_of(self@, kind) == Some(m@) && self@[first_kind(self@, kind)->0].1 == *m,
                None => map_of(self@, kind).is_none(),
            },
    {
        let n = self.maps.len();
        let mut j: usize = 0;
        assert(self@.subrange(0, 0) =~= Seq::<(ModuleKind, SymbolMap)>::empty());
        while j < n
            invariant
                n == self@.len(),
                j <= n,
                first_kind(self@.subrange(0, j as int), kind).is_none(),
            decreases n - j,
        {
            proof {
                lemma_first_kind_step(self@, kind, j as int);
            }
            if self.maps[j].0 == kind {
                proof {
                    lemma_first_kind_extends(self@, kind, j + 1);
                }
                return Some(&self.maps[j].1);
            }
            j += 1;
        }
        assert(self@.subrange(0, n as int) =~= self@);
        None
    }
}

} // verus!
