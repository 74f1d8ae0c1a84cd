//! Relocations: records that a word at some address refers to a symbol,
//! possibly in another module.
use vstd::prelude::*;

use crate::symbol::ModuleKind;

verus! {

/// The module a relocation points into: none (a reference within the same
/// module), one definite module, or several candidates that share the address.
pub enum RelocationModule {
    Local,
    Module(ModuleKind),
    Candidates(Vec<ModuleKind>),
}

impl RelocationModule {
    pub open spec fn spec_first(&self) -> Option<ModuleKind> {
        match self {
            RelocationModule::Local => None,
            RelocationModule::Module(k) => Some(*k),
            RelocationModule::Candidates(v) => if v@.len() > 0 {
                Some(v@[0])
            } else {
                None
            },
        }
    }

    pub open spec fn spec_others(&self) -> Option<Seq<ModuleKind>> {
        match self {
            RelocationModule::Candidates(v) => if v@.len() > 0 {
                Some(v@.drop_first())
            } else {
                Some(Seq::empty())
            },
            _ => None,
        }
    }

    /// The module that the relocation resolves to.
    pub fn first_module(&self) -> (r: Option<ModuleKind>)
        ensures
            r == self.spec_first(),
    {
        match self {
            RelocationModule::Local => None,
            RelocationModule::Module(k) => Some(*k),
            RelocationModule::Candidates(v) => if v.len() > 0 {
                Some(v[0])
            } else {
                None
            },
        }
    }

    /// The other candidate modules of an ambiguous relocation.
    pub fn other_modules(&self) -> (r: Option<Vec<ModuleKind>>)
        ensures
            match r {
                Some(v) => self.spec_others() == Some(v@),
                None => self.spec_others().is_none(),
            },
    {
        match self {
            RelocationModule::Candidates(v) => {
                let mut out: Vec<ModuleKind> = Vec::new();
                if v.len() == 0 {
                    assert(out@ =~= Seq::<ModuleKind>::empty());
                    return Some(out);
                }
                let mut i: usize = 1;
                while i < v.len()
                    invariant
                        1 <= i <= v@.len(),
                        out@ == v@.subrange(1, i as int),
                    decreases v@.len() - i,
                {
                    out.push(v[i]);
                    i += 1;
                    assert(out@ =~= v@.subrange(1, i as int));
                }
                assert(out@ =~= v@.drop_first());
                Some(out)
            },
            _ => None,
        }
    }
}

pub struct Relocation {
    pub from: u32,
    pub to: u32,
    pub addend: i64,
    pub module: RelocationModule,
}

/// The relocations of one module.
pub struct Relocations {
    relocations: Vec<Relocation>,
}

impl View for Relocations {
    type V = Seq<Relocation>;

    closed spec fn view(&self) -> Seq<Relocation> {
        self.relocations@
    }
}

/// The index of the first relocation of `s` from `source`, if any.
pub open spec fn first_from(s: Seq<Relocation>, source: u32) -> Option<int>
    decreases s.len(),
{
    if s.len() == 0 {
        None
    } else {
        match first_from(s.drop_last(), source) {
            Some(i) => Some(i),
            None => if s.last().from == source {
                Some(s.len() - 1)
            } else {
                None
            },
        }
    }
}

proof fn lemma_first_from_step(s: Seq<Relocation>, source: u32, j: int)
    requires
        0 <= j < s.len(),
        first_from(s.subrange(0, j), source).is_none(),
    ensures
        first_from(s.subrange(0, j + 1), source) == (if s[j].from == source {
            Some(j)
        } else {
            None::<int>
        }),
{
    assert(s.subrange(0, j + 1).drop_last() =~= s.subrange(0, j));
}

proof fn lemma_first_from_extends(s: Seq<Relocation>, source: u32, j: int)
    requires
        0 <= j <= s.len(),
        first_from(s.subrange(0, j), source).is_some(),
    ensures
        first_from(s, source) == first_from(s.subrange(0, j), source),
    decreases s.len() - j,
{
    if j < s.len() {
        assert(s.subrange(0, j + 1).drop_last() =~= s.subrange(0, j));
        lemma_first_from_extends(s, source, j + 1);
    } else {
        assert(s.subrange(0, j) =~= s);
    }
}

impl Relocations {
    pub fn new() -> (r: Relocations)
        ensures
            r@ == Seq::<Relocation>::empty(),
    {
        Relocations { relocations: Vec::new() }
    }

    pub fn add(&mut self, relocation: Relocation)
        ensures
            final(self)@ == old(self)@.push(relocation),
    {
        self.relocations.push(relocation);
    }

    /// The relocation registered at `source`.
    pub fn get(&self, source: u32) -> (r: Option<&Relocation>)
        ensures
            match r {
                Some(rel) => first_from(self@, source) is Some && *rel == self@[first_from(self@, source)->0],
                None => first_from(self@, source).is_none(),
            },
    {
        let n = self.relocations.len();
        let mut j: usize = 0;
        assert(self@.subrange(0, 0) =~= Seq::<Relocation>::empty());
        while j < n
            invariant
                n == self@.len(),
                j <= n,
                first_from(self@.subrange(0, j as int), source).is_none(),
            decreases n - j,
        {
            proof {
                lemma_first_from_step(self@, source, j as int);
            }
            if self.relocations[j].from == source {
                proof {
                    lemma_first_from_extends(self@, source, j + 1);
                }
                return Some(&self.relocations[j]);
            }
            j += 1;
        }
        assert(self@.subrange(0, n as int) =~= self@);
        None
    }
}

} // verus!
