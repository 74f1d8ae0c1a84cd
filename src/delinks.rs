//! Reading a delinks file line by line: first the header's sections, then,
//! after a blank line, blocks of a source file and the sections cut from it.
use vstd::prelude::*;

use crate::lcf::DelinkFile;
use crate::section::{
    context_is, parse_inherit_spec, parse_section_spec, sections_wf, ParseContext, Section, SectionInheritParseError,
    SectionParseError, SectionSpec, Sections, SectionsError,
};
use crate::text::{is_ws, split_words, words};

verus! {

/// The position of the last `c` in `p`, or -1.
pub open spec fn last_index_of(p: Seq<char>, c: char) -> int
    decreases p.len(),
{
    if p.len() == 0 {
        -1
    } else if p.last() == c {
        p.len() - 1
    } else {
        last_index_of(p.drop_last(), c)
    }
}

/// A file name without its extension: what precedes its last `.`, where that
/// dot follows the last `/`.
pub open spec fn file_stem(name: Seq<char>) -> Seq<char> {
    if last_index_of(name, '.') > last_index_of(name, '/') {
        name.subrange(0, last_index_of(name, '.'))
    } else {
        name
    }
}

/// Whether a line names a source file: it starts with a non-blank character.
pub open spec fn is_file_line(line: Seq<char>) -> bool {
    line.len() > 0 && !is_ws(line[0])
}

/// Why a delinks line was refused.
pub enum DelinksError {
    Section { error: SectionParseError },
    Inherit { error: SectionInheritParseError },
    Sections { row: usize, error: SectionsError },
    SectionBeforeFile { row: usize },
}

/// A delinks file read so far.
pub struct DelinksReader {
    pub in_header: bool,
    pub sections: Sections,
    pub files: Vec<DelinkFile>,
}

impl DelinksReader {
    pub open spec fn wf(&self) -> bool {
        &&& self.sections.wf()
        &&& forall|k: int| 0 <= k < self.files@.len() ==> (#[trigger] self.files@[k]).sections.wf()
    }

    pub fn new() -> (r: DelinksReader)
        ensures
            r.wf(),
            r.in_header,
            r.sections@.len() == 0,
            r.files@.len() == 0,
    {
        DelinksReader { in_header: true, sections: Sections::new(), files: Vec::new() }
    }

    /// Reads one line. In the header a blank line ends the header and any
    /// other line adds a section. After it, blank lines are skipped, a line
    /// that starts with a non-blank character opens a source file (its name,
    /// then `complete` when it is done), and an indented line adds a section
    /// to the last file, with the header's kind and alignment.
    pub fn read_line(&mut self, line: &str, context: &ParseContext) -> (r: Result<(), DelinksError>)
        requires
            old(self).wf(),
        ensures
            final(self).wf(),
            r is Err ==> final(self).sections@ == old(self).sections@,
            old(self).in_header && words(line@).len() == 0 ==> r is Ok && !final(self).in_header
                && final(self).sections@ == old(self).sections@ && final(self).files@ == old(self).files@,
            old(self).in_header && words(line@).len() > 0 ==> final(self).in_header && final(self).files@
                == old(self).files@ && match r {
                Ok(()) => parse_section_spec(line@) is Ok && parse_section_spec(line@)->Ok_0 is Some
                    && final(self).sections@ == old(self).sections@.push(parse_section_spec(line@)->Ok_0->Some_0),
                Err(DelinksError::Section { error }) => parse_section_spec(line@) == Err::<
                    Option<SectionSpec>,
                    crate::section::SectionParseFailure,
                >(error.failure()) && error.in_context(context.file_path@, context.row),
                Err(DelinksError::Sections { row, .. }) => row == context.row && parse_section_spec(line@) is Ok
                    && !sections_wf(old(self).sections@.push(parse_section_spec(line@)->Ok_0->Some_0)),
                _ => false,
            },
            !old(self).in_header ==> !final(self).in_header && final(self).sections@ == old(self).sections@,
            !old(self).in_header && words(line@).len() == 0 ==> r is Ok && final(self).files@ == old(self).files@,
            !old(self).in_header && words(line@).len() > 0 && is_file_line(line@) ==> r is Ok
                && final(self).files@.len() == old(self).files@.len() + 1
                && final(self).files@.drop_last() == old(self).files@
                && final(self).files@.last().path@ == file_stem(words(line@)[0])
                && final(self).files@.last().complete == (words(line@).len() >= 2 && words(line@)[1] == "complete"@)
                && final(self).files@.last().sections@.len() == 0,
            !old(self).in_header && words(line@).len() > 0 && !is_file_line(line@) ==> match r {
                Ok(()) => old(self).files@.len() > 0 && parse_inherit_spec(line@, old(self).sections@) is Ok
                    && parse_inherit_spec(line@, old(self).sections@)->Ok_0 is Some
                    && final(self).files@.len() == old(self).files@.len()
                    && final(self).files@.drop_last() == old(self).files@.drop_last()
                    && final(self).files@.last().path@ == old(self).files@.last().path@
                    && final(self).files@.last().complete == old(self).files@.last().complete
                    && final(self).files@.last().sections@ == old(self).files@.last().sections@.push(
                    parse_inherit_spec(line@, old(self).sections@)->Ok_0->Some_0,
                ),
                Err(DelinksError::SectionBeforeFile { row }) => old(self).files@.len() == 0 && row == context.row,
                Err(DelinksError::Inherit { error }) => old(self).files@.len() > 0 && parse_inherit_spec(
                    line@,
                    old(self).sections@,
                ) == Err::<Option<SectionSpec>, crate::section::SectionParseFailure>(error.failure())
                    && error.in_context(context.file_path@, context.row),
                Err(DelinksError::Sections { row, .. }) => old(self).files@.len() > 0 && row == context.row,
                _ => false,
            },
    {
        let spans = split_words(line);
        if self.in_header {
            if spans.len() == 0 {
                self.in_header = false;
                return Ok(());
            }
            let section = match Section::parse(line, context) {
                Ok(Some(s)) => s,
                Ok(None) => {
                    return Ok(());
                },
                Err(error) => {
                    return Err(DelinksError::Section { error });
                },
            };
            let ghost sv = section@;
            match self.sections.add(section) {
                Ok(_) => Ok(()),
                Err(error) => {
                    proof {
                        if sections_wf(old(self).sections@.push(sv)) {
                            crate::section::lemma_sections_uniqueness(old(self).sections@, sv);
                        }
                    }
                    Err(DelinksError::Sections { row: context.row, error })
                },
            }
        } else {
            if spans.len() == 0 {
                return Ok(());
            }
            proof {
                crate::text::lemma_words_first(line@);
            }
            if !crate::text::is_whitespace(line.get_char(0)) {
                let (a, b) = spans[0];
                let name = line.substring_char(a, b);
                let mut complete = false;
                if spans.len() >= 2 {
                    let (c, d) = spans[1];
                    complete = crate::section::str_eq(line.substring_char(c, d), "complete");
                }
                let stem = file_stem_of(name);
                proof {
                    crate::text::lemma_word_at(line@, spans@, 0);
                    if spans@.len() >= 2 {
                        crate::text::lemma_word_at(line@, spans@, 1);
                    }
                }
                self.files.push(DelinkFile { path: stem, complete, sections: Sections::new() });
                assert(self.files@.drop_last() =~= old(self).files@);
                return Ok(());
            }
            let n = self.files.len();
            if n == 0 {
                return Err(DelinksError::SectionBeforeFile { row: context.row });
            }
            let section = match Section::parse_inherit(line, context, &self.sections) {
                Ok(Some(s)) => s,
                Ok(None) => {
                    return Ok(());
                },
                Err(error) => {
                    return Err(DelinksError::Inherit { error });
                },
            };
            let mut file = self.files.pop().unwrap();
            let r = file.sections.add(section);
            self.files.push(file);
            assert(self.files@.drop_last() =~= old(self).files@.drop_last());
            match r {
                Ok(_) => Ok(()),
                Err(error) => Err(DelinksError::Sections { row: context.row, error }),
            }
        }
    }
}

/// The file name `name` without its extension.
pub fn file_stem_of(name: &str) -> (r: String)
    ensures
        r@ == file_stem(name@),
{
    let n = name.unicode_len();
    let mut dot: usize = n;
    let mut slash: usize = n;
    let mut i: usize = n;
    assert(name@.subrange(0, n as int) =~= name@);
    while i > 0
        invariant
            i <= n == name@.len(),
            dot == n ==> last_index_of(name@, '.') == last_index_of(name@.subrange(0, i as int), '.'),
            dot < n ==> last_index_of(name@, '.') == dot,
            slash == n ==> last_index_of(name@, '/') == last_index_of(name@.subrange(0, i as int), '/'),
            slash < n ==> last_index_of(name@, '/') == slash,
            dot <= n,
            slash <= n,
        decreases i,
    {
        let c = name.get_char(i - 1);
        let ghost p = name@.subrange(0, i as int);
        assert(p.drop_last() =~= name@.subrange(0, i - 1));
        if c == '.' && dot == n {
            dot = i - 1;
        }
        if c == '/' && slash == n {
            slash = i - 1;
        }
        i -= 1;
    }
    assert(name@.subrange(0, 0) =~= Seq::<char>::empty());
    assert(last_index_of(Seq::<char>::empty(), '.') == -1);
    assert(last_index_of(Seq::<char>::empty(), '/') == -1);
    if dot < n && (slash == n || dot > slash) {
        name.substring_char(0, dot).to_owned()
    } else {
        name.to_owned()
    }
}

} // verus!
