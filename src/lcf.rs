//! The linker command file: its MEMORY, KEEP_SECTION and SECTIONS blocks, and
//! the list of object files to link.
use vstd::prelude::*;

use crate::overlay_groups::OverlayGroup;
use crate::section::{has_name, Section, Sections};
use crate::symbol::{AutoloadKind, ModuleKind};

verus! {

/// The decimal digit of `d`.
pub open spec fn dec_char(d: nat) -> char {
    ('0' as nat + d) as char
}

/// The decimal digits of `n`, without leading zeros (`0` for zero).
pub open spec fn dec_digits(n: nat) -> Seq<char>
    decreases n,
{
    if n < 10 {
        seq![dec_char(n)]
    } else {
        dec_digits(n / 10).push(dec_char(n % 10))
    }
}

/// The decimal digits of `n`, with zeros in front up to three digits.
pub open spec fn dec3(n: nat) -> Seq<char> {
    if n < 10 {
        "00"@ + dec_digits(n)
    } else if n < 100 {
        "0"@ + dec_digits(n)
    } else {
        dec_digits(n)
    }
}

fn dec_digit_str(d: u64) -> (r: &'static str)
    requires
        d < 10,
    ensures
        r@ == seq![dec_char(d as nat)],
{
    proof {
        reveal_strlit("0");
        reveal_strlit("1");
        reveal_strlit("2");
        reveal_strlit("3");
        reveal_strlit("4");
        reveal_strlit("5");
        reveal_strlit("6");
        reveal_strlit("7");
        reveal_strlit("8");
        reveal_strlit("9");
    }
    match d {
        0 => "0",
        1 => "1",
        2 => "2",
        3 => "3",
        4 => "4",
        5 => "5",
        6 => "6",
        7 => "7",
        8 => "8",
        _ => "9",
    }
}

/// Appends the decimal digits of `n`.
pub fn push_decimal(out: &mut String, n: u64)
    ensures
        final(out)@ == old(out)@ + dec_digits(n as nat),
    decreases n,
{
    if n >= 10 {
        push_decimal(out, n / 10);
    }
    out.append(dec_digit_str(n % 10));
    assert(final(out)@ =~= old(out)@ + dec_digits(n as nat));
}

/// Appends the decimal digits of `n`, padded with zeros to three digits.
pub fn push_decimal3(out: &mut String, n: u64)
    ensures
        final(out)@ == old(out)@ + dec3(n as nat),
{
    let ghost out0 = out@;
    if n < 10 {
        out.append("00");
    } else if n < 100 {
        out.append("0");
    }
    push_decimal(out, n);
    assert(final(out)@ =~= out0 + dec3(n as nat));
}

/// The memory region name of an overlay.
pub open spec fn overlay_memory(id: u16) -> Seq<char> {
    "OV"@ + dec3(id as nat)
}

/// The KEEP_SECTION block.
pub open spec fn keep_section_text() -> Seq<char> {
    "KEEP_SECTION {\n    .init,\n    .ctor\n}\n\n"@
}

/// Appends the KEEP_SECTION block.
pub fn write_keep_section_section(out: &mut String)
    ensures
        final(out)@ == old(out)@ + keep_section_text(),
{
    out.append("KEEP_SECTION {\n    .init,\n    .ctor\n}\n\n");
}

/// Why a linker script could not be written.
#[derive(Clone, Copy, Debug, PartialEq, Eq, Structural)]
pub enum LcfError {
    /// An autoload that is neither ITCM nor DTCM.
    UnknownAutoloadKind,
    /// An overlay of a group has no object file.
    MissingOverlay,
}

/// An autoload region: its kind, where it loads, and its object file.
pub struct AutoloadMemory {
    pub kind: AutoloadKind,
    pub base_address: u32,
    pub object: String,
}

/// The object file of an overlay.
pub struct OverlayObject {
    pub id: u16,
    pub object: String,
}

/// Puts `s` before a text that may have failed.
pub open spec fn lcf_then(s: Seq<char>, r: Result<Seq<char>, LcfError>) -> Result<Seq<char>, LcfError> {
    match r {
        Ok(t) => Ok(s + t),
        Err(e) => Err(e),
    }
}

/// The MEMORY lines of the autoloads `a[i..]`.
pub open spec fn autoload_lines(a: Seq<AutoloadMemory>, i: nat) -> Result<Seq<char>, LcfError>
    decreases a.len() - i,
{
    if i >= a.len() {
        Ok(Seq::empty())
    } else {
        let m = a[i as int];
        let name = match m.kind {
            AutoloadKind::Itcm => Some("ITCM"@),
            AutoloadKind::Dtcm => Some("DTCM"@),
            AutoloadKind::Unknown(_) => None,
        };
        match name {
            None => Err(LcfError::UnknownAutoloadKind),
            Some(n) => lcf_then(
                "    "@ + n + " : ORIGIN = "@ + crate::text::hex_literal(m.base_address as nat) + " > "@ + m.object@
                    + "\n"@,
                autoload_lines(a, i + 1),
            ),
        }
    }
}

/// The index of the first object of overlay `id`, if any.
pub open spec fn object_of(objs: Seq<OverlayObject>, id: u16) -> Option<int>
    decreases objs.len(),
{
    if objs.len() == 0 {
        None
    } else {
        match object_of(objs.drop_last(), id) {
            Some(i) => Some(i),
            None => if objs.last().id == id {
                Some(objs.len() - 1)
            } else {
                None
            },
        }
    }
}

/// The memory names of `ids`, separated by commas.
pub open spec fn after_list(ids: Seq<u16>) -> Seq<char>
    decreases ids.len(),
{
    if ids.len() == 0 {
        Seq::empty()
    } else if ids.len() == 1 {
        overlay_memory(ids[0])
    } else {
        after_list(ids.drop_last()) + ","@ + overlay_memory(ids.last())
    }
}

/// What an overlay's memory region is placed after.
pub open spec fn after_text(after: Seq<u16>) -> Seq<char> {
    if after.len() == 0 {
        "ARM9"@
    } else {
        after_list(after)
    }
}

/// The MEMORY line of overlay `id`, placed after `after`.
pub open spec fn overlay_line(objs: Seq<OverlayObject>, id: u16, after: Seq<u16>) -> Result<Seq<char>, LcfError> {
    match object_of(objs, id) {
        None => Err(LcfError::MissingOverlay),
        Some(i) => Ok("    "@ + overlay_memory(id) + " : ORIGIN = AFTER("@ + after_text(after) + ") > "@ + objs[i].object@ + "\n"@),
    }
}

/// The MEMORY lines of the overlays `ids[j..]`, placed after `after`.
pub open spec fn group_lines(objs: Seq<OverlayObject>, ids: Seq<u16>, after: Seq<u16>, j: nat) -> Result<Seq<char>, LcfError>
    decreases ids.len() - j,
{
    if j >= ids.len() {
        Ok(Seq::empty())
    } else {
        match overlay_line(objs, ids[j as int], after) {
            Err(e) => Err(e),
            Ok(line) => lcf_then(line, group_lines(objs, ids, after, j + 1)),
        }
    }
}

/// The MEMORY lines of the overlay groups `groups[g..]`.
pub open spec fn groups_lines(objs: Seq<OverlayObject>, groups: Seq<OverlayGroup>, g: nat) -> Result<Seq<char>, LcfError>
    decreases groups.len() - g,
{
    if g >= groups.len() {
        Ok(Seq::empty())
    } else {
        match group_lines(objs, groups[g as int].overlays@, groups[g as int].after@, 0) {
            Err(e) => Err(e),
            Ok(t) => lcf_then(t, groups_lines(objs, groups, g + 1)),
        }
    }
}

/// The MEMORY block.
pub open spec fn memory_text(
    arm9_base: u32,
    arm9_object: Seq<char>,
    autoloads: Seq<AutoloadMemory>,
    groups: Seq<OverlayGroup>,
    objs: Seq<OverlayObject>,
) -> Result<Seq<char>, LcfError> {
    match autoload_lines(autoloads, 0) {
        Err(e) => Err(e),
        Ok(a) => match groups_lines(objs, groups, 0) {
            Err(e) => Err(e),
            Ok(o) => Ok(
                "MEMORY {\n"@ + "    ARM9 : ORIGIN = "@ + crate::text::hex_literal(arm9_base as nat) + " > "@ + arm9_object
                    + "\n"@ + a + o + "}\n\n"@,
            ),
        },
    }
}

proof fn lemma_lcf_then_assoc(a: Seq<char>, b: Seq<char>, x: Result<Seq<char>, LcfError>)
    ensures
        lcf_then(a, lcf_then(b, x)) == lcf_then(a + b, x),
{
    if let Ok(t) = x {
        assert(a + (b + t) =~= (a + b) + t);
    }
}

fn find_object(objs: &[OverlayObject], id: u16) -> (r: Option<&OverlayObject>)
    ensures
        match r {
            Some(o) => object_of(objs@, id) is Some && *o == objs@[object_of(objs@, id)->0],
            None => object_of(objs@, id) is None,
        },
{
    let mut j: usize = 0;
    assert(objs@.subrange(0, 0) =~= Seq::<OverlayObject>::empty());
    while j < objs.len()
        invariant
            j <= objs@.len(),
            object_of(objs@.subrange(0, j as int), id) is None,
        decreases objs@.len() - j,
    {
        assert(objs@.subrange(0, j + 1).drop_last() =~= objs@.subrange(0, j as int));
        if objs[j].id == id {
            proof {
                lemma_object_extends(objs@, id, j + 1);
            }
            return Some(&objs[j]);
        }
        j += 1;
    }
    assert(objs@.subrange(0, objs@.len() as int) =~= objs@);
    None
}

proof fn lemma_object_extends(s: Seq<OverlayObject>, id: u16, j: int)
    requires
        0 <= j <= s.len(),
        object_of(s.subrange(0, j), id) is Some,
    ensures
        object_of(s, id) == object_of(s.subrange(0, j), id),
    decreases s.len() - j,
{
    if j < s.len() {
        assert(s.subrange(0, j + 1).drop_last() =~= s.subrange(0, j));
        lemma_object_extends(s, id, j + 1);
    } else {
        assert(s.subrange(0, j) =~= s);
    }
}

fn write_after(out: &mut String, after: &Vec<u16>)
    ensures
        final(out)@ == old(out)@ + after_text(after@),
{
    let ghost out0 = out@;
    if after.len() == 0 {
        out.append("ARM9");
        return;
    }
    let mut i: usize = 0;
    while i < after.len()
        invariant
            0 <= i <= after@.len(),
            after@.len() > 0,
            out@ == out0 + after_list(after@.subrange(0, i as int)),
        decreases after@.len() - i,
    {
        let ghost pre = after@.subrange(0, i as int);
        assert(after@.subrange(0, i + 1).drop_last() =~= pre);
        if i > 0 {
            out.append(",");
        }
        out.append("OV");
        push_decimal3(out, after[i] as u64);
        assert(out@ =~= out0 + after_list(after@.subrange(0, i + 1)));
        i += 1;
    }
    assert(after@.subrange(0, after@.len() as int) =~= after@);
}

fn write_overlay_line(out: &mut String, objs: &[OverlayObject], id: u16, after: &Vec<u16>) -> (r: Result<(), LcfError>)
    ensures
        match overlay_line(objs@, id, after@) {
            Ok(t) => r == Ok::<(), LcfError>(()) && final(out)@ == old(out)@ + t,
            Err(e) => r == Err::<(), LcfError>(e),
        },
{
    let obj = match find_object(objs, id) {
        Some(o) => o,
        None => {
            return Err(LcfError::MissingOverlay);
        },
    };
    let ghost out0 = out@;
    out.append("    ");
    out.append("OV");
    push_decimal3(out, id as u64);
    out.append(" : ORIGIN = AFTER(");
    write_after(out, after);
    out.append(") > ");
    out.append(obj.object.as_str());
    out.append("\n");
    assert(out@ =~= out0 + ("    "@ + overlay_memory(id) + " : ORIGIN = AFTER("@ + after_text(after@) + ") > "@ + obj.object@ + "\n"@));
    Ok(())
}

fn write_group(out: &mut String, objects: &[OverlayObject], group: &OverlayGroup) -> (r: Result<(), LcfError>)
    ensures
        match group_lines(objects@, group.overlays@, group.after@, 0) {
            Ok(t) => r == Ok::<(), LcfError>(()) && final(out)@ == old(out)@ + t,
            Err(e) => r == Err::<(), LcfError>(e),
        },
{
    let ghost gstart = out@;
    let mut j: usize = 0;
    assert(out@.subrange(gstart.len() as int, out@.len() as int) =~= Seq::<char>::empty());
    while j < group.overlays.len()
        invariant
            j <= group.overlays@.len(),
            gstart == old(out)@,
            out@.len() >= gstart.len(),
            out@.subrange(0, gstart.len() as int) == gstart,
            group_lines(objects@, group.overlays@, group.after@, 0) == lcf_then(
                out@.subrange(gstart.len() as int, out@.len() as int),
                group_lines(objects@, group.overlays@, group.after@, j as nat),
            ),
        decreases group.overlays@.len() - j,
    {
        let ghost before = out@;
        let ghost line = overlay_line(objects@, group.overlays@[j as int], group.after@);
        write_overlay_line(out, objects, group.overlays[j], &group.after)?;
        j += 1;
        proof {
            let piece = out@.subrange(before.len() as int, out@.len() as int);
            assert(out@ =~= before + piece);
            assert(piece =~= line->Ok_0);
            assert(group_lines(objects@, group.overlays@, group.after@, (j - 1) as nat) == lcf_then(
                piece,
                group_lines(objects@, group.overlays@, group.after@, j as nat),
            ));
            lemma_lcf_then_assoc(
                before.subrange(gstart.len() as int, before.len() as int),
                piece,
                group_lines(objects@, group.overlays@, group.after@, j as nat),
            );
            assert(out@.subrange(gstart.len() as int, out@.len() as int) =~= before.subrange(gstart.len() as int, before.len() as int) + piece);
            assert(out@.subrange(0, gstart.len() as int) =~= gstart) by {
                assert(out@.subrange(0, before.len() as int) =~= before);
            }
        }
    }
    let ghost piece = out@.subrange(gstart.len() as int, out@.len() as int);
    assert(piece + Seq::<char>::empty() =~= piece);
    assert(out@ =~= gstart + piece);
    Ok(())
}

/// Appends the MEMORY block: the main module at its base address, each
/// autoload as ITCM or DTCM, and each overlay of each group after the group
/// below it (after ARM9 for the first).
pub fn write_memory_section(
    out: &mut String,
    arm9_base: u32,
    arm9_object: &str,
    autoloads: &[AutoloadMemory],
    groups: &[OverlayGroup],
    objects: &[OverlayObject],
) -> (r: Result<(), LcfError>)
    ensures
        match memory_text(arm9_base, arm9_object@, autoloads@, groups@, objects@) {
            Ok(t) => r == Ok::<(), LcfError>(()) && final(out)@ == old(out)@ + t,
            Err(e) => r == Err::<(), LcfError>(e),
        },
{
    let ghost out0 = out@;
    out.append("MEMORY {\n");
    out.append("    ARM9 : ORIGIN = ");
    crate::text::push_hex(out, arm9_base as u64);
    out.append(" > ");
    out.append(arm9_object);
    out.append("\n");
    let ghost out1 = out@;
    let mut i: usize = 0;
    assert(out@.subrange(out1.len() as int, out@.len() as int) =~= Seq::<char>::empty());
    while i < autoloads.len()
        invariant
            i <= autoloads@.len(),
            out@.len() >= out1.len(),
            out@.subrange(0, out1.len() as int) == out1,
            autoload_lines(autoloads@, 0) == lcf_then(
                out@.subrange(out1.len() as int, out@.len() as int),
                autoload_lines(autoloads@, i as nat),
            ),
        decreases autoloads@.len() - i,
    {
        let ghost before = out@;
        let a = &autoloads[i];
        let ghost name = match a.kind {
            AutoloadKind::Itcm => "ITCM"@,
            _ => "DTCM"@,
        };
        out.append("    ");
        match a.kind {
            AutoloadKind::Itcm => out.append("ITCM"),
            AutoloadKind::Dtcm => out.append("DTCM"),
            AutoloadKind::Unknown(_) => {
                return Err(LcfError::UnknownAutoloadKind);
            },
        }
        out.append(" : ORIGIN = ");
        crate::text::push_hex(out, a.base_address as u64);
        out.append(" > ");
        out.append(a.object.as_str());
        out.append("\n");
        i += 1;
        proof {
            let piece = out@.subrange(before.len() as int, out@.len() as int);
            assert(out@ =~= before + piece);
            assert(piece =~= "    "@ + name + " : ORIGIN = "@ + crate::text::hex_literal(a.base_address as nat) + " > "@ + a.object@ + "\n"@);
            assert(autoload_lines(autoloads@, (i - 1) as nat) == lcf_then(piece, autoload_lines(autoloads@, i as nat)));
            lemma_lcf_then_assoc(before.subrange(out1.len() as int, before.len() as int), piece, autoload_lines(autoloads@, i as nat));
            assert(out@.subrange(out1.len() as int, out@.len() as int) =~= before.subrange(out1.len() as int, before.len() as int) + piece);
            assert(out@.subrange(0, out1.len() as int) =~= out1) by {
                assert(out@.subrange(0, before.len() as int) =~= before);
            }
        }
    }
    let ghost out2 = out@;
    assert(autoload_lines(autoloads@, i as nat) == Ok::<Seq<char>, LcfError>(Seq::empty()));
    let mut g: usize = 0;
    assert(out@.subrange(out2.len() as int, out@.len() as int) =~= Seq::<char>::empty());
    while g < groups.len()
        invariant
            g <= groups@.len(),
            autoload_lines(autoloads@, 0) is Ok,
            out@.len() >= out2.len(),
            out@.subrange(0, out2.len() as int) == out2,
            groups_lines(objects@, groups@, 0) == lcf_then(
                out@.subrange(out2.len() as int, out@.len() as int),
                groups_lines(objects@, groups@, g as nat),
            ),
        decreases groups@.len() - g,
    {
        let group = &groups[g];
        let ghost gstart = out@;
        let ghost lines = group_lines(objects@, group.overlays@, group.after@, 0);
        match write_group(out, objects, group) {
            Ok(()) => {},
            Err(e) => {
                assert(groups_lines(objects@, groups@, g as nat) == Err::<Seq<char>, LcfError>(e));
                return Err(e);
            },
        }
        g += 1;
        proof {
            let piece = out@.subrange(gstart.len() as int, out@.len() as int);
            assert(out@ =~= gstart + piece);
            assert(piece =~= lines->Ok_0);
            assert(groups_lines(objects@, groups@, (g - 1) as nat) == lcf_then(piece, groups_lines(objects@, groups@, g as nat)));
            lemma_lcf_then_assoc(gstart.subrange(out2.len() as int, gstart.len() as int), piece, groups_lines(objects@, groups@, g as nat));
            assert(out@.subrange(out2.len() as int, out@.len() as int) =~= gstart.subrange(out2.len() as int, gstart.len() as int) + piece);
            assert(out@.subrange(0, out2.len() as int) =~= out2) by {
                assert(out@.subrange(0, gstart.len() as int) =~= gstart);
            }
        }
    }
    let ghost out3 = out@;
    out.append("}\n\n");
    proof {
        let a = out2.subrange(out1.len() as int, out2.len() as int);
        let o = out3.subrange(out2.len() as int, out3.len() as int);
        assert(a + Seq::<char>::empty() =~= a);
        assert(o + Seq::<char>::empty() =~= o);
        assert(out2 =~= out1 + a);
        assert(out3 =~= out2 + o);
        assert(out@ =~= out0 + ("MEMORY {\n"@ + "    ARM9 : ORIGIN = "@ + crate::text::hex_literal(arm9_base as nat) + " > "@ + arm9_object@ + "\n"@ + a + o + "}\n\n"@));
    }
    Ok(())
}

/// A source file of a module and the sections it was cut into. `path` has no
/// extension.
pub struct DelinkFile {
    pub path: String,
    pub complete: bool,
    pub sections: Sections,
}

/// The section and memory names of a module; none for an unknown autoload.
pub open spec fn module_names(kind: ModuleKind) -> Option<(Seq<char>, Seq<char>)> {
    match kind {
        ModuleKind::Arm9 => Some((".arm9"@, "ARM9"@)),
        ModuleKind::Overlay(id) => Some(("."@ + "ov"@ + dec3(id as nat), overlay_memory(id))),
        ModuleKind::Autoload(AutoloadKind::Itcm) => Some((".itcm"@, "ITCM"@)),
        ModuleKind::Autoload(AutoloadKind::Dtcm) => Some((".dtcm"@, "DTCM"@)),
        ModuleKind::Autoload(AutoloadKind::Unknown(_)) => None,
    }
}

/// A section's name without its leading dot, for boundary symbols.
pub open spec fn boundary_name(name: Seq<char>) -> Seq<char> {
    if name.len() > 0 && name[0] == '.' {
        name.drop_first()
    } else {
        name
    }
}

/// The position of the last `/` in `p`, or -1.
pub open spec fn last_slash(p: Seq<char>) -> int
    decreases p.len(),
{
    if p.len() == 0 {
        -1
    } else if p.last() == '/' {
        p.len() - 1
    } else {
        last_slash(p.drop_last())
    }
}

/// The file name of a path: what follows its last `/`.
pub open spec fn base_name(p: Seq<char>) -> Seq<char> {
    p.subrange(last_slash(p) + 1, p.len() as int)
}

/// The object lines of the files `files[k..]` that hold section `name`.
pub open spec fn file_lines(files: Seq<DelinkFile>, name: Seq<char>, k: nat) -> Seq<char>
    decreases files.len() - k,
{
    if k >= files.len() {
        Seq::empty()
    } else {
        (if has_name(files[k as int].sections@, name) {
            "        "@ + base_name(files[k as int].path@) + ".o("@ + name + ")\n"@
        } else {
            Seq::empty()
        }) + file_lines(files, name, k + 1)
    }
}

/// The lines of one section inside a module's SECTIONS block.
pub open spec fn section_lines(mem: Seq<char>, name: Seq<char>, alignment: u32, files: Seq<DelinkFile>) -> Seq<char> {
    "        . = ALIGN("@ + dec_digits(alignment as nat) + ");\n"@ + "        "@ + mem + "_"@ + boundary_name(name)
        + "_START = .;\n"@ + file_lines(files, name, 0) + "        "@ + mem + "_"@ + boundary_name(name) + "_END = .;\n"@
}

/// The lines of the sections `order[i..]`.
pub open spec fn sections_lines(mem: Seq<char>, order: Seq<&Section>, files: Seq<DelinkFile>, i: nat) -> Seq<char>
    decreases order.len() - i,
{
    if i >= order.len() {
        Seq::empty()
    } else {
        section_lines(mem, order[i as int]@.name, order[i as int]@.alignment, files) + sections_lines(mem, order, files, i + 1)
    }
}

/// A module's block in SECTIONS, its sections in the order given.
pub open spec fn module_block(kind: ModuleKind, order: Seq<&Section>, files: Seq<DelinkFile>) -> Option<Seq<char>> {
    match module_names(kind) {
        None => None,
        Some((m, mem)) => Some(
            "    "@ + m + " : {\n"@ + sections_lines(mem, order, files, 0) + "    } > "@ + mem + "\n\n"@,
        ),
    }
}

/// The object list lines of the files `files[k..]`: complete files are
/// built under `build`, the others under `delinks`.
pub open spec fn object_lines(files: Seq<DelinkFile>, build: Seq<char>, delinks: Seq<char>, k: nat) -> Seq<char>
    decreases files.len() - k,
{
    if k >= files.len() {
        Seq::empty()
    } else {
        (if files[k as int].complete {
            build
        } else {
            delinks
        }) + "/"@ + files[k as int].path@ + ".o\n"@ + object_lines(files, build, delinks, k + 1)
    }
}

fn write_base_name(out: &mut String, path: &str)
    ensures
        final(out)@ == old(out)@ + base_name(path@),
{
    let n = path.unicode_len();
    let mut i: usize = n;
    assert(path@.subrange(0, n as int) =~= path@);
    while i > 0 && path.get_char(i - 1) != '/'
        invariant
            i <= n == path@.len(),
            last_slash(path@) == last_slash(path@.subrange(0, i as int)),
        decreases i,
    {
        assert(path@.subrange(0, i as int).drop_last() =~= path@.subrange(0, i - 1));
        i -= 1;
    }
    proof {
        if i > 0 {
            assert(path@.subrange(0, i as int).last() == '/');
        } else {
            assert(path@.subrange(0, 0) =~= Seq::<char>::empty());
        }
    }
    out.append(path.substring_char(i, n));
}

fn write_file_lines(out: &mut String, files: &[DelinkFile], name: &str)
    requires
        forall|k: int| 0 <= k < files@.len() ==> (#[trigger] files@[k]).sections.wf(),
    ensures
        final(out)@ == old(out)@ + file_lines(files@, name@, 0),
{
    let ghost out0 = out@;
    let mut k: usize = 0;
    while k < files.len()
        invariant
            k <= files@.len(),
            forall|x: int| 0 <= x < files@.len() ==> (#[trigger] files@[x]).sections.wf(),
            out@.len() >= out0.len(),
            out@.subrange(0, out0.len() as int) == out0,
            file_lines(files@, name@, 0) == out@.subrange(out0.len() as int, out@.len() as int) + file_lines(files@, name@, k as nat),
        decreases files@.len() - k,
    {
        let ghost before = out@;
        let f = &files[k];
        if f.sections.by_name(name).is_some() {
            out.append("        ");
            write_base_name(out, f.path.as_str());
            out.append(".o(");
            out.append(name);
            out.append(")\n");
        }
        k += 1;
        proof {
            let piece = out@.subrange(before.len() as int, out@.len() as int);
            assert(out@ =~= before + piece);
            assert(file_lines(files@, name@, (k - 1) as nat) =~= piece + file_lines(files@, name@, k as nat));
            assert(out@.subrange(out0.len() as int, out@.len() as int) =~= before.subrange(out0.len() as int, before.len() as int) + piece);
            assert(out@.subrange(0, out0.len() as int) =~= out0) by {
                assert(out@.subrange(0, before.len() as int) =~= before);
            }
        }
    }
    assert(out@ =~= out0 + file_lines(files@, name@, 0));
}

fn write_module_names(out: &mut String, kind: ModuleKind, memory: bool) -> (r: Result<(), LcfError>)
    ensures
        match module_names(kind) {
            Some((m, mem)) => r == Ok::<(), LcfError>(()) && final(out)@ == old(out)@ + (if memory {
                mem
            } else {
                m
            }),
            None => r == Err::<(), LcfError>(LcfError::UnknownAutoloadKind),
        },
{
    let ghost out0 = out@;
    match kind {
        ModuleKind::Arm9 => out.append(if memory {
            "ARM9"
        } else {
            ".arm9"
        }),
        ModuleKind::Overlay(id) => {
            if memory {
                out.append("OV");
            } else {
                out.append(".");
                out.append("ov");
            }
            push_decimal3(out, id as u64);
            assert(out@ =~= out0 + (if memory {
                overlay_memory(id)
            } else {
                "."@ + "ov"@ + dec3(id as nat)
            }));
        },
        ModuleKind::Autoload(AutoloadKind::Itcm) => out.append(if memory {
            "ITCM"
        } else {
            ".itcm"
        }),
        ModuleKind::Autoload(AutoloadKind::Dtcm) => out.append(if memory {
            "DTCM"
        } else {
            ".dtcm"
        }),
        ModuleKind::Autoload(AutoloadKind::Unknown(_)) => {
            return Err(LcfError::UnknownAutoloadKind);
        },
    }
    Ok(())
}

fn write_boundary(out: &mut String, name: &str)
    ensures
        final(out)@ == old(out)@ + boundary_name(name@),
{
    let n = name.unicode_len();
    if n > 0 && name.get_char(0) == '.' {
        let rest = name.substring_char(1, n);
        assert(rest@ =~= name@.drop_first());
        out.append(rest);
    } else {
        out.append(name);
    }
}

fn write_section_lines(out: &mut String, kind: ModuleKind, section: &Section, files: &[DelinkFile])
    requires
        module_names(kind) is Some,
        forall|k: int| 0 <= k < files@.len() ==> (#[trigger] files@[k]).sections.wf(),
    ensures
        final(out)@ == old(out)@ + section_lines((module_names(kind)->0).1, section@.name, section@.alignment, files@),
{
    let ghost out0 = out@;
    let ghost mem = (module_names(kind)->0).1;
    out.append("        . = ALIGN(");
    push_decimal(out, section.alignment() as u64);
    out.append(");\n");
    out.append("        ");
    let _ = write_module_names(out, kind, true);
    out.append("_");
    write_boundary(out, section.name());
    out.append("_START = .;\n");
    write_file_lines(out, files, section.name());
    out.append("        ");
    let _ = write_module_names(out, kind, true);
    out.append("_");
    write_boundary(out, section.name());
    out.append("_END = .;\n");
    assert(out@ =~= out0 + section_lines(mem, section@.name, section@.alignment, files@));
}

/// Appends a module's block of the SECTIONS command: for each section, in
/// the order given, its alignment, its start and end symbols and the object
/// of each file that holds it.
pub fn write_module_section(out: &mut String, kind: ModuleKind, order: &[&Section], files: &[DelinkFile]) -> (r: Result<(), LcfError>)
    requires
        crate::section::starts_sorted(order@),
        forall|k: int| 0 <= k < files@.len() ==> (#[trigger] files@[k]).sections.wf(),
    ensures
        match module_block(kind, order@, files@) {
            Some(t) => r == Ok::<(), LcfError>(()) && final(out)@ == old(out)@ + t,
            None => r == Err::<(), LcfError>(LcfError::UnknownAutoloadKind) && final(out)@ == old(out)@,
        },
{
    let ghost out0 = out@;
    if let ModuleKind::Autoload(AutoloadKind::Unknown(_)) = kind {
        return Err(LcfError::UnknownAutoloadKind);
    }
    let ghost names = module_names(kind)->0;
    out.append("    ");
    let _ = write_module_names(out, kind, false);
    out.append(" : {\n");
    let ghost out1 = out@;
    let mut i: usize = 0;
    while i < order.len()
        invariant
            i <= order@.len(),
            module_names(kind) == Some(names),
            forall|k: int| 0 <= k < files@.len() ==> (#[trigger] files@[k]).sections.wf(),
            out@.len() >= out1.len(),
            out@.subrange(0, out1.len() as int) == out1,
            sections_lines(names.1, order@, files@, 0) == out@.subrange(out1.len() as int, out@.len() as int) + sections_lines(names.1, order@, files@, i as nat),
        decreases order@.len() - i,
    {
        let ghost before = out@;
        write_section_lines(out, kind, order[i], files);
        i += 1;
        proof {
            let piece = out@.subrange(before.len() as int, out@.len() as int);
            assert(out@ =~= before + piece);
            assert(sections_lines(names.1, order@, files@, (i - 1) as nat) =~= piece + sections_lines(names.1, order@, files@, i as nat));
            assert(out@.subrange(out1.len() as int, out@.len() as int) =~= before.subrange(out1.len() as int, before.len() as int) + piece);
            assert(out@.subrange(0, out1.len() as int) =~= out1) by {
                assert(out@.subrange(0, before.len() as int) =~= before);
            }
        }
    }
    let ghost out2 = out@;
    assert(sections_lines(names.1, order@, files@, i as nat) == Seq::<char>::empty());
    let ghost mid = out2.subrange(out1.len() as int, out2.len() as int);
    assert(mid + Seq::<char>::empty() =~= mid);
    assert(out2 =~= out1 + mid);
    assert(out1 =~= out0 + ("    "@ + names.0 + " : {\n"@));
    out.append("    } > ");
    let _ = write_module_names(out, kind, true);
    out.append("\n\n");
    assert(out@ =~= out0 + ("    "@ + names.0 + " : {\n"@ + sections_lines(names.1, order@, files@, 0) + "    } > "@ + names.1 + "\n\n"@));
    Ok(())
}

/// Appends the object list lines of a module's files.
pub fn write_objects(out: &mut String, files: &[DelinkFile], build_path: &str, delinks_path: &str)
    ensures
        final(out)@ == old(out)@ + object_lines(files@, build_path@, delinks_path@, 0),
{
    let ghost out0 = out@;
    let mut k: usize = 0;
    while k < files.len()
        invariant
            k <= files@.len(),
            out@.len() >= out0.len(),
            out@.subrange(0, out0.len() as int) == out0,
            object_lines(files@, build_path@, delinks_path@, 0) == out@.subrange(out0.len() as int, out@.len() as int)
                + object_lines(files@, build_path@, delinks_path@, k as nat),
        decreases files@.len() - k,
    {
        let ghost before = out@;
        let f = &files[k];
        out.append(if f.complete {
            build_path
        } else {
            delinks_path
        });
        out.append("/");
        out.append(f.path.as_str());
        out.append(".o\n");
        k += 1;
        proof {
            let piece = out@.subrange(before.len() as int, out@.len() as int);
            assert(out@ =~= before + piece);
            assert(object_lines(files@, build_path@, delinks_path@, (k - 1) as nat) =~= piece + object_lines(files@, build_path@, delinks_path@, k as nat));
            assert(out@.subrange(out0.len() as int, out@.len() as int) =~= before.subrange(out0.len() as int, before.len() as int) + piece);
            assert(out@.subrange(0, out0.len() as int) =~= out0) by {
                assert(out@.subrange(0, before.len() as int) =~= before);
            }
        }
    }
    assert(out@ =~= out0 + object_lines(files@, build_path@, delinks_path@, 0));
}

/// One module's part of the SECTIONS command: its kind, its sections in
/// address order, and its files.
pub struct ModuleDelinks<'a> {
    pub kind: ModuleKind,
    pub order: Vec<&'a Section>,
    pub files: &'a [DelinkFile],
}

/// The module blocks of `modules[i..]`, in order; none where a module kind
/// is unknown.
pub open spec fn module_blocks(modules: Seq<ModuleDelinks>, i: nat) -> Option<Seq<char>>
    decreases modules.len() - i,
{
    if i >= modules.len() {
        Some(Seq::empty())
    } else {
        match module_block(modules[i as int].kind, modules[i as int].order@, modules[i as int].files@) {
            None => None,
            Some(b) => match module_blocks(modules, i + 1) {
                None => None,
                Some(rest) => Some(b + rest),
            },
        }
    }
}

/// The object list lines of the files of `modules[i..]`, in order.
pub open spec fn modules_objects(modules: Seq<ModuleDelinks>, build: Seq<char>, delinks: Seq<char>, i: nat) -> Seq<char>
    decreases modules.len() - i,
{
    if i >= modules.len() {
        Seq::empty()
    } else {
        object_lines(modules[i as int].files@, build, delinks, 0) + modules_objects(modules, build, delinks, i + 1)
    }
}

/// Appends the SECTIONS command (each module's block, in the order given:
/// ARM9, then autoloads, then overlays) and the object list of every module.
/// An unknown autoload kind fails before anything is written.
pub fn write_sections_section(
    lcf: &mut String,
    objects: &mut String,
    modules: &[ModuleDelinks],
    build_path: &str,
    delinks_path: &str,
) -> (r: Result<(), LcfError>)
    requires
        forall|m: int| 0 <= m < modules@.len() ==> crate::section::starts_sorted((#[trigger] modules@[m]).order@),
        forall|m: int, k: int|
            0 <= m < modules@.len() && 0 <= k < modules@[m].files@.len() ==> (#[trigger] modules@[m].files@[k]).sections.wf(),
    ensures
        match module_blocks(modules@, 0) {
            Some(t) => r == Ok::<(), LcfError>(()) && final(lcf)@ == old(lcf)@ + ("SECTIONS {\n"@ + t + "}\n\n"@)
                && final(objects)@ == old(objects)@ + modules_objects(modules@, build_path@, delinks_path@, 0),
            None => r == Err::<(), LcfError>(LcfError::UnknownAutoloadKind) && final(lcf)@ == old(lcf)@
                && final(objects)@ == old(objects)@,
        },
{
    let mut i: usize = modules.len();
    while i > 0
        invariant
            i <= modules@.len(),
            module_blocks(modules@, i as nat) is Some,
        decreases i,
    {
        let m = &modules[i - 1];
        if let ModuleKind::Autoload(AutoloadKind::Unknown(_)) = m.kind {
            assert(module_blocks(modules@, (i - 1) as nat) is None);
            proof {
                lemma_blocks_none(modules@, (i - 1) as nat);
            }
            return Err(LcfError::UnknownAutoloadKind);
        }
        i -= 1;
    }
    let ghost l0 = lcf@;
    let ghost o0 = objects@;
    lcf.append("SECTIONS {\n");
    let ghost l1 = lcf@;
    let mut k: usize = 0;
    assert(lcf@.subrange(l1.len() as int, lcf@.len() as int) =~= Seq::<char>::empty());
    assert(objects@.subrange(o0.len() as int, objects@.len() as int) =~= Seq::<char>::empty());
    while k < modules.len()
        invariant
            k <= modules@.len(),
            forall|m: int| 0 <= m < modules@.len() ==> crate::section::starts_sorted((#[trigger] modules@[m]).order@),
            forall|m: int, x: int|
                0 <= m < modules@.len() && 0 <= x < modules@[m].files@.len() ==> (#[trigger] modules@[m].files@[x]).sections.wf(),
            module_blocks(modules@, 0) is Some,
            l1 == old(lcf)@ + "SECTIONS {\n"@,
            o0 == old(objects)@,
            lcf@.len() >= l1.len(),
            lcf@.subrange(0, l1.len() as int) == l1,
            objects@.len() >= o0.len(),
            objects@.subrange(0, o0.len() as int) == o0,
            module_blocks(modules@, 0) == match module_blocks(modules@, k as nat) {
                Some(rest) => Some(lcf@.subrange(l1.len() as int, lcf@.len() as int) + rest),
                None => None::<Seq<char>>,
            },
            modules_objects(modules@, build_path@, delinks_path@, 0) == objects@.subrange(o0.len() as int, objects@.len() as int)
                + modules_objects(modules@, build_path@, delinks_path@, k as nat),
        decreases modules@.len() - k,
    {
        let m = &modules[k];
        let ghost lb = lcf@;
        let ghost ob = objects@;
        let _ = write_module_section(lcf, m.kind, m.order.as_slice(), m.files);
        write_objects(objects, m.files, build_path, delinks_path);
        k += 1;
        proof {
            let lp = lcf@.subrange(lb.len() as int, lcf@.len() as int);
            let op = objects@.subrange(ob.len() as int, objects@.len() as int);
            assert(lcf@ =~= lb + lp);
            assert(objects@ =~= ob + op);
            assert(lcf@.subrange(l1.len() as int, lcf@.len() as int) =~= lb.subrange(l1.len() as int, lb.len() as int) + lp);
            assert(objects@.subrange(o0.len() as int, objects@.len() as int) =~= ob.subrange(o0.len() as int, ob.len() as int) + op);
            assert(lcf@.subrange(0, l1.len() as int) =~= l1) by {
                assert(lcf@.subrange(0, lb.len() as int) =~= lb);
            }
            assert(objects@.subrange(0, o0.len() as int) =~= o0) by {
                assert(objects@.subrange(0, ob.len() as int) =~= ob);
            }
            if let Some(rest) = module_blocks(modules@, k as nat) {
                assert(lb.subrange(l1.len() as int, lb.len() as int) + (lp + rest) =~= (lb.subrange(l1.len() as int, lb.len() as int) + lp) + rest);
            }
            assert(ob.subrange(o0.len() as int, ob.len() as int) + (op + modules_objects(modules@, build_path@, delinks_path@, k as nat)) =~= (ob.subrange(o0.len() as int, ob.len() as int) + op) + modules_objects(modules@, build_path@, delinks_path@, k as nat));
        }
    }
    let ghost body = lcf@.subrange(l1.len() as int, lcf@.len() as int);
    let ghost objs = objects@.subrange(o0.len() as int, objects@.len() as int);
    assert(body + Seq::<char>::empty() =~= body);
    assert(objs + Seq::<char>::empty() =~= objs);
    assert(lcf@ =~= l1 + body);
    lcf.append("}\n\n");
    assert(lcf@ =~= old(lcf)@ + ("SECTIONS {\n"@ + body + "}\n\n"@));
    assert(objects@ =~= old(objects)@ + objs);
    Ok(())
}

proof fn lemma_blocks_none(modules: Seq<ModuleDelinks>, i: nat)
    requires
        i <= modules.len(),
        module_blocks(modules, i) is None,
    ensures
        module_blocks(modules, 0) is None,
    decreases i,
{
    if i > 0 {
        lemma_blocks_none(modules, (i - 1) as nat);
    }
}

} // verus!
