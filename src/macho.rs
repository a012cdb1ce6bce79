//! The Mach-O inspector: the layout of a binary's load commands and
//! segments, where its signature lies, and whether it can be signed.
use crate::endian::{get32, get64, get_be32, read32, read64, read_be32};
use crate::error::AppleCodesignError;
use vstd::prelude::*;

verus! {

pub const LC_SEGMENT: u32 = 0x1;

pub const LC_SEGMENT_64: u32 = 0x19;

pub const LC_CODE_SIGNATURE: u32 = 0x1d;

pub const FAT_MAGIC: u32 = 0xcafebabe;

/// The Mach-O magic numbers as read big-endian: native and byte-swapped,
/// 32-bit and 64-bit.
pub const MH_MAGIC: u32 = 0xfeedface;

pub const MH_CIGAM: u32 = 0xcefaedfe;

pub const MH_MAGIC_64: u32 = 0xfeedfacf;

pub const MH_CIGAM_64: u32 = 0xcffaedfe;

pub const LC_SYMTAB: u32 = 0x2;

pub const LC_THREAD: u32 = 0x4;

pub const LC_UNIXTHREAD: u32 = 0x5;

pub const LC_LOAD_DYLIB: u32 = 0xc;

pub const LC_ID_DYLIB: u32 = 0xd;

pub const LC_LAZY_LOAD_DYLIB: u32 = 0x20;

pub const LC_DYLD_INFO: u32 = 0x22;

pub const LC_LOAD_WEAK_DYLIB: u32 = 0x80000018;

pub const LC_RPATH: u32 = 0x8000001c;

pub const LC_REEXPORT_DYLIB: u32 = 0x8000001f;

pub const LC_DYLD_INFO_ONLY: u32 = 0x80000022;

pub const LC_LOAD_UPWARD_DYLIB: u32 = 0x80000023;

pub const LC_MAIN: u32 = 0x80000028;

/// Half of the 64-bit range: an LC_MAIN entry offset below it and a
/// segment's `vmaddr - fileoff` at most it cannot overflow when added.
pub const HALF_U64: u64 = 0x8000_0000_0000_0000;

pub open spec fn mach_magic(d: Seq<u8>) -> bool {
    let m = read_be32(d, 0);
    m == MH_MAGIC || m == MH_CIGAM || m == MH_MAGIC_64 || m == MH_CIGAM_64
}

pub open spec fn mach_little(d: Seq<u8>) -> bool {
    read_be32(d, 0) == MH_CIGAM || read_be32(d, 0) == MH_CIGAM_64
}

pub open spec fn mach_64(d: Seq<u8>) -> bool {
    read_be32(d, 0) == MH_MAGIC_64 || read_be32(d, 0) == MH_CIGAM_64
}

pub open spec fn mach_header_len(d: Seq<u8>) -> int {
    if mach_64(d) {
        32
    } else {
        28
    }
}

/// The load command at `o` holds none of the values on which goblin's
/// parser does unchecked arithmetic: symbol table offsets out of order,
/// dyld info ranges past 32 bits, a thread state past the data, an LC_MAIN
/// entry offset or a segment's `vmaddr - fileoff` that could overflow, a
/// string offset past `usize`.
pub open spec fn command_safe(d: Seq<u8>, le: bool, o: int) -> bool {
    let cmd = read32(d, o, le);
    if cmd == LC_SYMTAB {
        o + 24 <= d.len() && read32(d, o + 16, le) >= read32(d, o + 8, le)
    } else if cmd == LC_DYLD_INFO || cmd == LC_DYLD_INFO_ONLY {
        &&& o + 48 <= d.len()
        &&& read32(d, o + 16, le) + read32(d, o + 20, le) <= u32::MAX
        &&& read32(d, o + 32, le) + read32(d, o + 36, le) <= u32::MAX
        &&& read32(d, o + 40, le) + read32(d, o + 44, le) <= u32::MAX
    } else if cmd == LC_THREAD || cmd == LC_UNIXTHREAD {
        o + 16 <= d.len() && o + 16 + 4 * read32(d, o + 12, le) <= d.len()
    } else if cmd == LC_MAIN {
        o + 16 <= d.len() && read64(d, o + 8, le) < HALF_U64
    } else if cmd == LC_SEGMENT {
        o + 56 <= d.len() && read32(d, o + 24, le) >= read32(d, o + 32, le)
    } else if cmd == LC_SEGMENT_64 {
        o + 72 <= d.len() && read64(d, o + 24, le) >= read64(d, o + 40, le) && read64(d, o + 24, le)
            - read64(d, o + 40, le) <= HALF_U64
    } else if cmd == LC_LOAD_DYLIB || cmd == LC_ID_DYLIB || cmd == LC_LAZY_LOAD_DYLIB || cmd
        == LC_LOAD_WEAK_DYLIB || cmd == LC_RPATH || cmd == LC_REEXPORT_DYLIB || cmd
        == LC_LOAD_UPWARD_DYLIB {
        o + 12 <= d.len() && o + read32(d, o + 8, le) <= usize::MAX
    } else {
        true
    }
}

/// `n` load commands from `o` on lie inside the data, each at least a
/// command header long, and each is safe for goblin.
pub open spec fn commands_safe(d: Seq<u8>, le: bool, o: int, n: nat) -> bool
    decreases n,
{
    if n == 0 {
        true
    } else {
        &&& o + 8 <= d.len()
        &&& read32(d, o + 4, le) >= 8
        &&& o + read32(d, o + 4, le) <= d.len()
        &&& command_safe(d, le, o)
        &&& commands_safe(d, le, o + read32(d, o + 4, le), (n - 1) as nat)
    }
}

/// goblin's single-architecture parser reads these bytes without
/// panicking: a Mach-O header, and load commands that `commands_safe`
/// accepts.
pub open spec fn goblin_safe(d: Seq<u8>) -> bool {
    &&& d.len() >= 32
    &&& mach_magic(d)
    &&& commands_safe(d, mach_little(d), mach_header_len(d), read32(d, 16, mach_little(d)) as nat)
}

fn command_is_safe(d: &[u8], le: bool, o: usize) -> (r: bool)
    requires
        o + 8 <= d@.len(),
    ensures
        r == command_safe(d@, le, o as int),
{
    let len = d.len();
    let cmd = get32(d, o, le);
    if cmd == LC_SYMTAB {
        len - o >= 24 && get32(d, o + 16, le) >= get32(d, o + 8, le)
    } else if cmd == LC_DYLD_INFO || cmd == LC_DYLD_INFO_ONLY {
        len - o >= 48 && get32(d, o + 16, le) as u64 + get32(d, o + 20, le) as u64 <= 0xffff_ffff
            && get32(d, o + 32, le) as u64 + get32(d, o + 36, le) as u64 <= 0xffff_ffff && get32(
            d,
            o + 40,
            le,
        ) as u64 + get32(d, o + 44, le) as u64 <= 0xffff_ffff
    } else if cmd == LC_THREAD || cmd == LC_UNIXTHREAD {
        len - o >= 16 && 4 * (get32(d, o + 12, le) as u64) <= (len - o - 16) as u64
    } else if cmd == LC_MAIN {
        len - o >= 16 && get64(d, o + 8, le) < HALF_U64
    } else if cmd == LC_SEGMENT {
        len - o >= 56 && get32(d, o + 24, le) >= get32(d, o + 32, le)
    } else if cmd == LC_SEGMENT_64 {
        len - o >= 72 && get64(d, o + 24, le) >= get64(d, o + 40, le) && get64(d, o + 24, le)
            - get64(d, o + 40, le) <= HALF_U64
    } else if cmd == LC_LOAD_DYLIB || cmd == LC_ID_DYLIB || cmd == LC_LAZY_LOAD_DYLIB || cmd
        == LC_LOAD_WEAK_DYLIB || cmd == LC_RPATH || cmd == LC_REEXPORT_DYLIB || cmd
        == LC_LOAD_UPWARD_DYLIB {
        len - o >= 12 && get32(d, o + 8, le) as usize <= usize::MAX - o
    } else {
        true
    }
}

/// Decides `goblin_safe`.
pub fn goblin_can_read(d: &[u8]) -> (r: bool)
    ensures
        r == goblin_safe(d@),
{
    let len = d.len();
    if len < 32 {
        return false;
    }
    let m = get_be32(d, 0);
    if !(m == MH_MAGIC || m == MH_CIGAM || m == MH_MAGIC_64 || m == MH_CIGAM_64) {
        return false;
    }
    let le = m == MH_CIGAM || m == MH_CIGAM_64;
    let mut o: usize = if m == MH_MAGIC_64 || m == MH_CIGAM_64 {
        32
    } else {
        28
    };
    let ncmds = get32(d, 16, le);
    let mut i: u32 = 0;
    while i < ncmds
        invariant
            len == d@.len(),
            o <= len,
            i <= ncmds,
            goblin_safe(d@) == commands_safe(d@, le, o as int, (ncmds - i) as nat),
            le == mach_little(d@),
        decreases ncmds - i,
    {
        if len - o < 8 {
            return false;
        }
        let size = get32(d, o + 4, le) as usize;
        if size < 8 || size > len - o || !command_is_safe(d, le, o) {
            return false;
        }
        o = o + size;
        i = i + 1;
    }
    true
}

/// What goblin reads from a single-architecture Mach-O: its byte order
/// (little-endian or not), whether it is 64-bit, its CPU type, and each
/// load command's `(file offset, cmd, cmdsize)`.
pub uninterp spec fn goblin_macho(data: Seq<u8>) -> Option<(bool, bool, u32, Seq<(usize, u32, usize)>)>;

/// Relies on `goblin::mach::MachO::parse`: the header and load commands of
/// a single-architecture Mach-O, as a function of its bytes. Its parser
/// adds and subtracts fields of some load commands without overflow checks
/// (dyld info ranges, symbol table offsets, the LC_MAIN entry address) and
/// slices thread states by their declared length; `goblin_safe` rules out
/// each such input.
#[verifier::external_body]
fn goblin_parse_macho(data: &[u8]) -> (r: Option<GoblinMachO>)
    requires
        goblin_safe(data@),
    ensures
        match r {
            Some(p) => goblin_macho(data@) == Some((p.little_endian, p.is_64, p.cputype, p.commands@)),
            None => goblin_macho(data@) is None,
        },
{
    let m = goblin::mach::MachO::parse(data, 0).ok()?;
    let commands = m.load_commands.iter().map(|lc| (lc.offset, lc.command.cmd(), lc.command.cmdsize()));
    Some(GoblinMachO {
        little_endian: m.little_endian,
        is_64: m.is_64,
        cputype: m.header.cputype,
        commands: commands.collect(),
    })
}

/// The header facts and load command list that goblin reads.
struct GoblinMachO {
    little_endian: bool,
    is_64: bool,
    cputype: u32,
    commands: Vec<(usize, u32, usize)>,
}

/// A fat header whose slice records all lie inside the data.
pub open spec fn fat_header_ok(d: Seq<u8>) -> bool {
    8 <= d.len() && read_be32(d, 0) == FAT_MAGIC && 8 + 20 * read_be32(d, 4) <= d.len()
}

/// What goblin reads from a fat binary's header: each slice's
/// `(cputype, cpusubtype, offset, size, align)`, or `None` where it cannot.
pub uninterp spec fn goblin_fat(data: Seq<u8>) -> Option<Seq<(u32, u32, u32, u32, u32)>>;

/// Relies on `goblin::mach::MultiArch::new` and `MultiArch::arches`: the
/// slice records of a fat binary. Both read through bounds-checked `pread`;
/// with the records inside the data, `arches` reserves no more than the
/// data's length in records.
#[verifier::external_body]
pub(crate) fn goblin_parse_fat(data: &[u8]) -> (r: Option<Vec<(u32, u32, u32, u32, u32)>>)
    requires
        fat_header_ok(data@),
    ensures
        match r {
            Some(v) => goblin_fat(data@) == Some(v@),
            None => goblin_fat(data@) is None,
        },
{
    let m = goblin::mach::MultiArch::new(data).ok()?;
    let arches = m.arches().ok()?;
    Some(arches.iter().map(|a| (a.cputype, a.cpusubtype, a.offset, a.size, a.align)).collect())
}

/// A segment load command and the file range it maps.
#[derive(Clone, Copy, Debug, PartialEq, Eq, Structural)]
pub struct SegmentInfo {
    /// File offset of the load command.
    pub command_offset: usize,
    /// `LC_SEGMENT_64` rather than `LC_SEGMENT`.
    pub is_64: bool,
    pub is_linkedit: bool,
    pub is_pagezero: bool,
    pub fileoff: u64,
    pub filesize: u64,
}

/// The code signature load command.
#[derive(Clone, Copy, Debug, PartialEq, Eq, Structural)]
pub struct SignatureCommand {
    /// File offset of the load command.
    pub command_offset: usize,
    pub dataoff: u32,
    pub datasize: u32,
}

/// The layout of a single-architecture Mach-O.
pub struct MachOLayout {
    pub little_endian: bool,
    pub is_64: bool,
    pub cputype: u32,
    /// End of the header and load commands.
    pub commands_end: usize,
    /// Segments, in load command order.
    pub segments: Vec<SegmentInfo>,
    /// The first code signature load command, if any.
    pub code_signature: Option<SignatureCommand>,
}

/// Offset within a segment command of its `filesize` field.
pub open spec fn filesize_field(s: SegmentInfo) -> int {
    if s.is_64 {
        48
    } else {
        36
    }
}

pub open spec fn name_is(d: Seq<u8>, off: int, name: Seq<u8>) -> bool {
    d.subrange(off, off + 16) == name + Seq::new((16 - name.len()) as nat, |i: int| 0u8)
}

pub open spec fn linkedit_name() -> Seq<u8> {
    seq![95u8, 95, 76, 73, 78, 75, 69, 68, 73, 84]
}

pub open spec fn pagezero_name() -> Seq<u8> {
    seq![95u8, 95, 80, 65, 71, 69, 90, 69, 82, 79]
}

/// A segment as its load command in `d` describes it.
pub open spec fn segment_read(d: Seq<u8>, s: SegmentInfo, little: bool) -> bool {
    let o = s.command_offset as int;
    &&& o + filesize_field(s) + (if s.is_64 { 8int } else { 4int }) <= d.len()
    &&& s.is_linkedit == name_is(d, o + 8, linkedit_name())
    &&& s.is_pagezero == name_is(d, o + 8, pagezero_name())
    &&& if s.is_64 {
        s.fileoff == read64(d, o + 40, little) && s.filesize == read64(d, o + 48, little)
    } else {
        s.fileoff == read32(d, o + 32, little) as u64 && s.filesize == read32(d, o + 36, little) as u64
    }
    &&& s.fileoff + s.filesize <= d.len()
}

/// The layout describes the bytes `d`.
pub open spec fn layout_of(l: &MachOLayout, d: Seq<u8>) -> bool {
    &&& d.len() <= usize::MAX
    &&& l.commands_end <= d.len()
    &&& forall|i: int|
        0 <= i < l.segments@.len() ==> segment_read(d, #[trigger] l.segments@[i], l.little_endian)
            && l.segments@[i].command_offset + filesize_field(l.segments@[i]) + 8 <= l.commands_end
    &&& match l.code_signature {
        Some(c) => c.command_offset + 16 <= l.commands_end && c.dataoff == read32(
            d,
            c.command_offset + 8,
            l.little_endian,
        ) && c.datasize == read32(d, c.command_offset + 12, l.little_endian),
        None => true,
    }
}

/// File offsets of the segment commands among `cmds`, in order, each with
/// whether it is `LC_SEGMENT_64`.
pub open spec fn segment_offsets(cmds: Seq<(usize, u32, usize)>) -> Seq<(usize, bool)>
    decreases cmds.len(),
{
    if cmds.len() == 0 {
        Seq::empty()
    } else {
        segment_offsets(cmds.drop_last()) + if cmds.last().1 == LC_SEGMENT || cmds.last().1
            == LC_SEGMENT_64 {
            seq![(cmds.last().0, cmds.last().1 == LC_SEGMENT_64)]
        } else {
            Seq::empty()
        }
    }
}

/// File offset of the first code signature command among `cmds`.
pub open spec fn first_signature_command(cmds: Seq<(usize, u32, usize)>) -> Option<usize>
    decreases cmds.len(),
{
    if cmds.len() == 0 {
        None
    } else {
        match first_signature_command(cmds.drop_last()) {
            Some(o) => Some(o),
            None => if cmds.last().1 == LC_CODE_SIGNATURE {
                Some(cmds.last().0)
            } else {
                None
            },
        }
    }
}

pub open spec fn segment_command_offsets(segs: Seq<SegmentInfo>) -> Seq<(usize, bool)> {
    Seq::new(segs.len(), |i: int| (segs[i].command_offset, segs[i].is_64))
}

/// End of the load commands `cmds`, which start at `h`.
pub open spec fn commands_end_of(cmds: Seq<(usize, u32, usize)>, h: int) -> int {
    if cmds.len() == 0 {
        h
    } else {
        cmds.last().0 + cmds.last().2
    }
}

/// The file range of the segment command at `o` lies inside the data.
pub open spec fn segment_range_ok(d: Seq<u8>, le: bool, o: int, is_64: bool) -> bool {
    if is_64 {
        read64(d, o + 40, le) + read64(d, o + 48, le) <= d.len()
    } else {
        read32(d, o + 32, le) + read32(d, o + 36, le) <= d.len()
    }
}

/// Command `c`, after the commands `pre`, starts where they end, lies
/// inside the data, and is long enough for what the signer reads of it.
pub open spec fn command_readable(
    d: Seq<u8>,
    le: bool,
    pre: Seq<(usize, u32, usize)>,
    c: (usize, u32, usize),
    h: int,
) -> bool {
    &&& c.0 == commands_end_of(pre, h)
    &&& c.0 + c.2 <= d.len()
    &&& (c.1 == LC_SEGMENT || c.1 == LC_SEGMENT_64) ==> c.2 >= (if c.1 == LC_SEGMENT_64 {
        72int
    } else {
        56int
    }) && segment_range_ok(d, le, c.0 as int, c.1 == LC_SEGMENT_64)
    &&& (c.1 == LC_CODE_SIGNATURE && first_signature_command(pre) is None) ==> c.2 >= 16
}

pub open spec fn commands_readable(d: Seq<u8>, le: bool, cmds: Seq<(usize, u32, usize)>, h: int) -> bool
    decreases cmds.len(),
{
    if cmds.len() == 0 {
        h <= d.len()
    } else {
        commands_readable(d, le, cmds.drop_last(), h) && command_readable(
            d,
            le,
            cmds.drop_last(),
            cmds.last(),
            h,
        )
    }
}

proof fn lemma_readable_prefix(d: Seq<u8>, le: bool, cmds: Seq<(usize, u32, usize)>, h: int, k: int)
    requires
        0 <= k <= cmds.len(),
        commands_readable(d, le, cmds, h),
    ensures
        commands_readable(d, le, cmds.subrange(0, k), h),
    decreases cmds.len(),
{
    if k < cmds.len() {
        lemma_readable_prefix(d, le, cmds.drop_last(), h, k);
        assert(cmds.drop_last().subrange(0, k) =~= cmds.subrange(0, k));
    } else {
        assert(cmds.subrange(0, k) =~= cmds);
    }
}

/// goblin reads the binary, and its load commands are what the signer
/// reads.
pub open spec fn layout_readable(d: Seq<u8>) -> bool {
    &&& goblin_safe(d)
    &&& goblin_macho(d) matches Some(g)
    &&& commands_readable(d, g.0, g.3, if g.1 { 32int } else { 28int })
}

/// `l` is the layout that `parse_layout` reads from `d`.
pub open spec fn parsed_layout(l: &MachOLayout, d: Seq<u8>) -> bool {
    &&& layout_readable(d)
    &&& layout_of(l, d)
    &&& goblin_macho(d) matches Some(g)
    &&& l.little_endian == g.0
    &&& l.is_64 == g.1
    &&& l.cputype == g.2
    &&& segment_command_offsets(l.segments@) == segment_offsets(g.3)
    &&& l.commands_end == commands_end_of(g.3, if g.1 { 32int } else { 28int })
    &&& match l.code_signature {
        Some(c) => first_signature_command(g.3) == Some(c.command_offset),
        None => first_signature_command(g.3) is None,
    }
}

/// Two layouts read from the same bytes agree.
pub proof fn lemma_parsed_layout_unique(l1: &MachOLayout, l2: &MachOLayout, d: Seq<u8>)
    requires
        parsed_layout(l1, d),
        parsed_layout(l2, d),
    ensures
        l1.little_endian == l2.little_endian,
        l1.is_64 == l2.is_64,
        l1.cputype == l2.cputype,
        l1.commands_end == l2.commands_end,
        l1.segments@ == l2.segments@,
        l1.code_signature == l2.code_signature,
{
    let a = l1.segments@;
    let b = l2.segments@;
    assert(segment_command_offsets(a).len() == segment_command_offsets(b).len());
    assert forall|i: int| 0 <= i < a.len() implies a[i] == b[i] by {
        assert(segment_command_offsets(a)[i] == segment_command_offsets(b)[i]);
        assert(segment_read(d, a[i], l1.little_endian));
        assert(segment_read(d, b[i], l2.little_endian));
    }
    assert(a =~= b);
}

/// Compares the 16-byte segment name at `off` with `name`, zero padded.
fn segment_name_is(d: &[u8], off: usize, name: &Vec<u8>) -> (r: bool)
    requires
        off + 16 <= d@.len(),
        name@.len() <= 16,
    ensures
        r == name_is(d@, off as int, name@),
{
    let ghost want = name@ + Seq::new((16 - name@.len()) as nat, |i: int| 0u8);
    let _n = d.len();
    let mut i: usize = 0;
    while i < 16
        invariant
            off + 16 <= d@.len(),
            d@.len() <= usize::MAX,
            name@.len() <= 16,
            want == name@ + Seq::new((16 - name@.len()) as nat, |i: int| 0u8),
            i <= 16,
            forall|j: int| 0 <= j < i ==> d@[off + j] == #[trigger] want[j],
        decreases 16 - i,
    {
        let expected: u8 = if i < name.len() {
            name[i]
        } else {
            0
        };
        if d[off + i] != expected {
            assert(d@.subrange(off as int, off + 16)[i as int] != want[i as int]);
            return false;
        }
        i = i + 1;
    }
    assert(d@.subrange(off as int, off + 16) =~= want);
    true
}

/// Reads the layout of a single-architecture Mach-O.
pub fn parse_layout(data: &[u8]) -> (r: Result<MachOLayout, AppleCodesignError>)
    ensures
        r is Ok <==> layout_readable(data@),
        r matches Ok(l) ==> parsed_layout(&l, data@),
        r is Err ==> r == Err::<MachOLayout, AppleCodesignError>(AppleCodesignError::MalformedMacho),
{
    if !goblin_can_read(data) {
        return Err(AppleCodesignError::MalformedMacho);
    }
    let parsed = goblin_parse_macho(data);
    let (little_endian, is_64, cputype, commands) = match parsed {
        Some(p) => (p.little_endian, p.is_64, p.cputype, p.commands),
        None => return Err(AppleCodesignError::MalformedMacho),
    };
    let len = data.len();
    let linkedit: Vec<u8> = vec![95u8, 95, 76, 73, 78, 75, 69, 68, 73, 84];
    let pagezero: Vec<u8> = vec![95u8, 95, 80, 65, 71, 69, 90, 69, 82, 79];
    assert(linkedit@ =~= linkedit_name());
    assert(pagezero@ =~= pagezero_name());
    let mut commands_end: usize = if is_64 {
        32
    } else {
        28
    };
    if commands_end > len {
        proof {
            if layout_readable(data@) {
                lemma_readable_prefix(data@, little_endian, commands@, commands_end as int, 0);
            }
        }
        return Err(AppleCodesignError::MalformedMacho);
    }
    let mut segments: Vec<SegmentInfo> = Vec::new();
    let mut code_signature: Option<SignatureCommand> = None;
    let mut i: usize = 0;
    let ghost cmds = commands@;
    let ghost h: int = if is_64 { 32 } else { 28 };
    assert(cmds.subrange(0, 0) =~= Seq::<(usize, u32, usize)>::empty());
    assert(segment_command_offsets(segments@) =~= Seq::<(usize, bool)>::empty());
    while i < commands.len()
        invariant
            cmds == commands@,
            goblin_macho(data@) == Some((little_endian, is_64, cputype, cmds)),
            h == (if is_64 { 32int } else { 28int }),
            commands_readable(data@, little_endian, cmds.subrange(0, i as int), h),
            commands_end == commands_end_of(cmds.subrange(0, i as int), h),
            i <= cmds.len(),
            segment_command_offsets(segments@) == segment_offsets(cmds.subrange(0, i as int)),
            match code_signature {
                Some(c) => first_signature_command(cmds.subrange(0, i as int)) == Some(
                    c.command_offset,
                ),
                None => first_signature_command(cmds.subrange(0, i as int)) is None,
            },
            len == data@.len(),
            commands_end <= len,
            linkedit@ == linkedit_name(),
            pagezero@ == pagezero_name(),
            forall|j: int|
                0 <= j < segments@.len() ==> segment_read(data@, #[trigger] segments@[j], little_endian)
                    && segments@[j].command_offset + filesize_field(segments@[j]) + 8 <= commands_end,
            match code_signature {
                Some(c) => c.command_offset + 16 <= commands_end && c.dataoff == read32(
                    data@,
                    c.command_offset + 8,
                    little_endian,
                ) && c.datasize == read32(data@, c.command_offset + 12, little_endian),
                None => true,
            },
        decreases commands.len() - i,
    {
        let (offset, cmd, cmdsize) = commands[i];
        let ghost pre = cmds.subrange(0, i as int);
        let ghost next = cmds.subrange(0, i + 1);
        assert(next.drop_last() =~= pre);
        let ghost old_segs = segments@;
        let ghost c = cmds[i as int];
        assert(next.last() == c);
        if offset != commands_end || cmdsize > len - offset {
            proof {
                if layout_readable(data@) {
                    lemma_readable_prefix(data@, little_endian, cmds, h, i + 1);
                }
            }
            return Err(AppleCodesignError::MalformedMacho);
        }
        let end = offset + cmdsize;
        if cmd == LC_SEGMENT || cmd == LC_SEGMENT_64 {
            let seg64 = cmd == LC_SEGMENT_64;
            let need: usize = if seg64 {
                72
            } else {
                56
            };
            if cmdsize < need {
                proof {
                    if layout_readable(data@) {
                    lemma_readable_prefix(data@, little_endian, cmds, h, i + 1);
                }
                }
                return Err(AppleCodesignError::MalformedMacho);
            }
            let (fileoff, filesize) = if seg64 {
                (get64(data, offset + 40, little_endian), get64(data, offset + 48, little_endian))
            } else {
                (
                    get32(data, offset + 32, little_endian) as u64,
                    get32(data, offset + 36, little_endian) as u64,
                )
            };
            if fileoff > len as u64 || filesize > len as u64 - fileoff {
                proof {
                    if layout_readable(data@) {
                    lemma_readable_prefix(data@, little_endian, cmds, h, i + 1);
                }
                }
                return Err(AppleCodesignError::MalformedMacho);
            }
            let seg = SegmentInfo {
                command_offset: offset,
                is_64: seg64,
                is_linkedit: segment_name_is(data, offset + 8, &linkedit),
                is_pagezero: segment_name_is(data, offset + 8, &pagezero),
                fileoff,
                filesize,
            };
            segments.push(seg);
            assert(segment_command_offsets(segments@) =~= segment_command_offsets(old_segs).push(
                (offset, seg64),
            ));
        } else if cmd == LC_CODE_SIGNATURE && code_signature.is_none() {
            if cmdsize < 16 {
                proof {
                    if layout_readable(data@) {
                    lemma_readable_prefix(data@, little_endian, cmds, h, i + 1);
                }
                }
                return Err(AppleCodesignError::MalformedMacho);
            }
            code_signature = Some(
                SignatureCommand {
                    command_offset: offset,
                    dataoff: get32(data, offset + 8, little_endian),
                    datasize: get32(data, offset + 12, little_endian),
                },
            );
        }
        assert(segment_command_offsets(segments@) =~= segment_offsets(next));
        commands_end = end;
        i = i + 1;
    }
    assert(cmds.subrange(0, i as int) =~= cmds);
    proof {
        if !layout_readable(data@) {
            assert(goblin_safe(data@));
        }
    }
    Ok(MachOLayout { little_endian, is_64, cputype, commands_end, segments, code_signature })
}


/// Index of the first `__LINKEDIT` segment.
pub open spec fn first_linkedit(segs: Seq<SegmentInfo>) -> Option<int>
    decreases segs.len(),
{
    if segs.len() == 0 {
        None
    } else {
        match first_linkedit(segs.drop_last()) {
            Some(i) => Some(i),
            None => if segs.last().is_linkedit {
                Some(segs.len() - 1)
            } else {
                None
            },
        }
    }
}

pub proof fn lemma_first_linkedit_range(segs: Seq<SegmentInfo>)
    ensures
        first_linkedit(segs) matches Some(i) ==> 0 <= i < segs.len() && segs[i].is_linkedit,
    decreases segs.len(),
{
    if segs.len() > 0 {
        lemma_first_linkedit_range(segs.drop_last());
    }
}

/// Where an embedded signature lies.
#[derive(Clone, Copy, Debug, PartialEq, Eq, Structural)]
pub struct SignatureLocation {
    /// Index of `__LINKEDIT` among the segments.
    pub linkedit_segment_index: usize,
    /// Start of the signature, relative to the start of `__LINKEDIT` data.
    pub signature_start_offset: usize,
    /// End of the signature, relative to the start of `__LINKEDIT` data.
    pub signature_end_offset: usize,
    /// Length of `__LINKEDIT` data.
    pub linkedit_data_len: usize,
    /// File offset of the signature: the command's `dataoff`.
    pub linkedit_signature_start_offset: usize,
}

/// The signature region that the layout declares: `Ok(None)` without a
/// code signature command, `Err` where it does not lie inside `__LINKEDIT`.
pub open spec fn signature_location(l: &MachOLayout) -> Result<Option<SignatureLocation>, ()> {
    match l.code_signature {
        None => Ok(None),
        Some(c) => match first_linkedit(l.segments@) {
            None => Err(()),
            Some(i) => {
                let seg = l.segments@[i];
                if (c.dataoff as int) < seg.fileoff || c.dataoff + c.datasize > seg.fileoff
                    + seg.filesize {
                    Err(())
                } else {
                    Ok(
                        Some(
                            SignatureLocation {
                                linkedit_segment_index: i as usize,
                                signature_start_offset: (c.dataoff - seg.fileoff) as usize,
                                signature_end_offset: (c.dataoff - seg.fileoff + c.datasize) as usize,
                                linkedit_data_len: seg.filesize as usize,
                                linkedit_signature_start_offset: c.dataoff as usize,
                            },
                        ),
                    )
                }
            },
        },
    }
}

/// Finds the embedded signature region.
pub fn find_signature(l: &MachOLayout, Ghost(d): Ghost<Seq<u8>>) -> (r: Result<
    Option<SignatureLocation>,
    AppleCodesignError,
>)
    requires
        layout_of(l, d),
    ensures
        match signature_location(l) {
            Ok(loc) => r == Ok::<_, AppleCodesignError>(loc),
            Err(()) => r == Err::<Option<SignatureLocation>, _>(AppleCodesignError::MalformedMacho),
        },
{
    let c = match l.code_signature {
        Some(c) => c,
        None => return Ok(None),
    };
    let mut i: usize = 0;
    while i < l.segments.len()
        invariant
            i <= l.segments@.len(),
            layout_of(l, d),
            l.code_signature == Some(c),
            first_linkedit(l.segments@.subrange(0, i as int)) is None,
        decreases l.segments.len() - i,
    {
        proof {
            assert(l.segments@.subrange(0, i + 1).drop_last() =~= l.segments@.subrange(0, i as int));
        }
        if l.segments[i].is_linkedit {
            proof {
                lemma_first_linkedit_prefix(l.segments@, i + 1);
            }
            let seg = l.segments[i];
            assert(segment_read(d, l.segments@[i as int], l.little_endian));
            if (c.dataoff as u64) < seg.fileoff || c.dataoff as u64 + c.datasize as u64 > seg.fileoff
                + seg.filesize {
                return Err(AppleCodesignError::MalformedMacho);
            }
            let start = (c.dataoff as u64 - seg.fileoff) as usize;
            return Ok(
                Some(
                    SignatureLocation {
                        linkedit_segment_index: i,
                        signature_start_offset: start,
                        signature_end_offset: start + c.datasize as usize,
                        linkedit_data_len: seg.filesize as usize,
                        linkedit_signature_start_offset: c.dataoff as usize,
                    },
                ),
            );
        }
        i = i + 1;
    }
    assert(l.segments@.subrange(0, i as int) =~= l.segments@);
    Err(AppleCodesignError::MalformedMacho)
}

proof fn lemma_first_linkedit_prefix(segs: Seq<SegmentInfo>, n: int)
    requires
        0 < n <= segs.len(),
        first_linkedit(segs.subrange(0, n - 1)) is None,
        segs[n - 1].is_linkedit,
    ensures
        first_linkedit(segs) == Some(n - 1),
    decreases segs.len(),
{
    if n < segs.len() {
        assert(segs.drop_last().subrange(0, n - 1) =~= segs.subrange(0, n - 1));
        lemma_first_linkedit_prefix(segs.drop_last(), n);
        assert(segs.drop_last().subrange(0, n - 1) =~= segs.subrange(0, n - 1));
    } else {
        assert(segs.drop_last() =~= segs.subrange(0, n - 1));
    }
}

/// Whether the signer can rewrite the binary: it has a signature inside a
/// final `__LINKEDIT` segment, with nothing after the signature.
pub open spec fn spec_signing_capability(l: &MachOLayout) -> Result<(), AppleCodesignError> {
    match signature_location(l) {
        Err(()) => Err(AppleCodesignError::MalformedMacho),
        Ok(None) => Err(AppleCodesignError::BinaryNoCodeSignature),
        Ok(Some(loc)) => if loc.linkedit_segment_index != l.segments@.len() - 1 {
            Err(AppleCodesignError::LinkeditNotLast)
        } else if loc.signature_end_offset != loc.linkedit_data_len {
            Err(AppleCodesignError::DataAfterSignature)
        } else {
            Ok(())
        },
    }
}

/// Checks that the signer can rewrite the binary.
pub fn check_signing_capability(l: &MachOLayout, Ghost(d): Ghost<Seq<u8>>) -> (r: Result<
    (),
    AppleCodesignError,
>)
    requires
        layout_of(l, d),
    ensures
        r == spec_signing_capability(l),
{
    match find_signature(l, Ghost(d))? {
        Some(signature) => {
            if signature.linkedit_segment_index != l.segments.len() - 1 {
                Err(AppleCodesignError::LinkeditNotLast)
            } else if signature.signature_end_offset != signature.linkedit_data_len {
                Err(AppleCodesignError::DataAfterSignature)
            } else {
                Ok(())
            }
        },
        None => Err(AppleCodesignError::BinaryNoCodeSignature),
    }
}

} // verus!
