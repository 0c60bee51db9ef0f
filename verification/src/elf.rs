use vstd::prelude::*;
use crate::consts::PAGE_SZ;
use vstd::string::StringSliceAdditionalSpecFns;
use vstd::utf8::valid_utf8;

verus! {

/// Program header type of a loadable segment.
pub const PT_LOAD: u32 = 1;

/// Program header type of the interpreter path.
pub const PT_INTERP: u32 = 3;

/// Program header type of the program header table itself.
pub const PT_PHDR: u32 = 6;

/// Segment flag: executable.
pub const PF_X: u32 = 1;

/// Segment flag: writable.
pub const PF_W: u32 = 2;

/// The fields of an ELF program header that loading reads.
#[derive(Clone, Copy, Debug, PartialEq, Eq, Structural)]
pub struct ProgHeader {
    pub kind: u32,
    pub vaddr: u64,
    pub mem_size: u64,
    pub offset: u64,
    pub file_size: u64,
    pub flags: u32,
}

/// One file-backed user area that a loadable segment becomes: its memory
/// range, its access (user, executable when the segment is, read-only when
/// it is not writable) and the file range it is filled from.
#[derive(Clone, Copy, Debug, PartialEq, Eq, Structural)]
pub struct LoadArea {
    pub start: usize,
    pub end: usize,
    pub executable: bool,
    pub readonly: bool,
    pub file_start: usize,
    pub file_end: usize,
}

/// The messages a segment check fails with, for a program or for an
/// interpreter.
pub open spec fn msg_range(interp: bool) -> &'static str {
    if interp {
        "elf interpreter virtual range overflow"
    } else {
        "elf virtual range overflow"
    }
}

pub open spec fn msg_empty(interp: bool) -> &'static str {
    if interp {
        "elf interpreter empty load range"
    } else {
        "elf empty load range"
    }
}

pub open spec fn msg_exceeds(interp: bool) -> &'static str {
    if interp {
        "elf interpreter file range exceeds memory range"
    } else {
        "elf file range exceeds memory range"
    }
}

pub open spec fn msg_file(interp: bool) -> &'static str {
    if interp {
        "elf interpreter file range overflow"
    } else {
        "elf file range overflow"
    }
}

/// The area a loadable header maps (shifted by `bias` for an
/// interpreter), or the first check it fails, in this order: address fits
/// a word, bias addition, size fits, end fits, range not empty, offset and
/// file size fit, file part within the memory part, file end fits.
pub open spec fn load_area_spec(ph: ProgHeader, bias: usize, interp: bool) -> Result<LoadArea, &'static str> {
    if ph.vaddr > usize::MAX {
        Err("elf value does not fit usize")
    } else if interp && ph.vaddr + bias > usize::MAX {
        Err("elf interpreter bias overflow")
    } else {
        let start: int = if interp {
            ph.vaddr + bias
        } else {
            ph.vaddr as int
        };
        if ph.mem_size > usize::MAX {
            Err("elf value does not fit usize")
        } else if start + ph.mem_size > usize::MAX {
            Err(msg_range(interp))
        } else if ph.mem_size == 0 {
            Err(msg_empty(interp))
        } else if ph.offset > usize::MAX || ph.file_size > usize::MAX {
            Err("elf value does not fit usize")
        } else if ph.file_size > ph.mem_size {
            Err(msg_exceeds(interp))
        } else if ph.offset + ph.file_size > usize::MAX {
            Err(msg_file(interp))
        } else {
            Ok(
                LoadArea {
                    start: start as usize,
                    end: (start + ph.mem_size) as usize,
                    executable: ph.flags & PF_X != 0,
                    readonly: ph.flags & PF_W == 0,
                    file_start: ph.offset as usize,
                    file_end: (ph.offset + ph.file_size) as usize,
                },
            )
        }
    }
}

/// The areas of the loadable headers of `phs` in order, or the first
/// failure among them; other headers are passed over.
pub open spec fn load_areas_spec(phs: Seq<ProgHeader>, bias: usize, interp: bool) -> Result<Seq<LoadArea>, &'static str>
    decreases phs.len(),
{
    if phs.len() == 0 {
        Ok(Seq::empty())
    } else {
        match load_areas_spec(phs.drop_last(), bias, interp) {
            Err(e) => Err(e),
            Ok(a) => if phs.last().kind != PT_LOAD {
                Ok(a)
            } else {
                match load_area_spec(phs.last(), bias, interp) {
                    Err(e) => Err(e),
                    Ok(x) => Ok(a.push(x)),
                }
            },
        }
    }
}

/// The largest end among `a` (0 for none).
pub open spec fn max_end(a: Seq<LoadArea>) -> int
    decreases a.len(),
{
    if a.len() == 0 {
        0
    } else if max_end(a.drop_last()) >= a.last().end {
        max_end(a.drop_last())
    } else {
        a.last().end as int
    }
}

/// `x` rounded down to a page boundary.
pub open spec fn page_down(x: int) -> int {
    x - x % (PAGE_SZ as int)
}

fn fit_usize(value: u64) -> (r: Result<usize, &'static str>)
    ensures
        value <= usize::MAX ==> r == Ok::<usize, &'static str>(value as usize),
        value > usize::MAX ==> r == Err::<usize, &'static str>("elf value does not fit usize"),
{
    if value > usize::MAX as u64 {
        return Err("elf value does not fit usize");
    }
    Ok(value as usize)
}

fn load_area(ph: &ProgHeader, bias: usize, interp: bool) -> (r: Result<LoadArea, &'static str>)
    ensures
        r == load_area_spec(*ph, bias, interp),
{
    let virtual_addr = fit_usize(ph.vaddr)?;
    let mem_start = if interp {
        match virtual_addr.checked_add(bias) {
            Some(s) => s,
            None => return Err("elf interpreter bias overflow"),
        }
    } else {
        virtual_addr
    };
    let mem_size = fit_usize(ph.mem_size)?;
    let mem_end = match mem_start.checked_add(mem_size) {
        Some(e) => e,
        None => return Err(if interp {
            "elf interpreter virtual range overflow"
        } else {
            "elf virtual range overflow"
        }),
    };
    if mem_start >= mem_end {
        return Err(if interp {
            "elf interpreter empty load range"
        } else {
            "elf empty load range"
        });
    }
    let file_start = fit_usize(ph.offset)?;
    let file_size = fit_usize(ph.file_size)?;
    if file_size > mem_size {
        return Err(if interp {
            "elf interpreter file range exceeds memory range"
        } else {
            "elf file range exceeds memory range"
        });
    }
    let file_end = match file_start.checked_add(file_size) {
        Some(e) => e,
        None => return Err(if interp {
            "elf interpreter file range overflow"
        } else {
            "elf file range overflow"
        }),
    };
    Ok(
        LoadArea {
            start: mem_start,
            end: mem_end,
            executable: ph.flags & PF_X != 0,
            readonly: ph.flags & PF_W == 0,
            file_start,
            file_end,
        },
    )
}

/// The areas of every loadable header, in order, with the largest end.
fn load_areas(phs: &Vec<ProgHeader>, bias: usize, interp: bool) -> (r: Result<(Vec<LoadArea>, usize), &'static str>)
    ensures
        match load_areas_spec(phs@, bias, interp) {
            Err(e) => r == Err::<(Vec<LoadArea>, usize), &'static str>(e),
            Ok(a) => r is Ok && r.unwrap().0@ == a && r.unwrap().1 == max_end(a),
        },
{
    let mut areas: Vec<LoadArea> = Vec::new();
    let mut farthest: usize = 0;
    let mut i: usize = 0;
    while i < phs.len()
        invariant
            i <= phs@.len(),
            load_areas_spec(phs@.subrange(0, i as int), bias, interp) == Ok::<Seq<LoadArea>, &'static str>(areas@),
            farthest == max_end(areas@),
        decreases phs@.len() - i,
    {
        proof {
            assert(phs@.subrange(0, i + 1).drop_last() =~= phs@.subrange(0, i as int));
            assert(phs@.subrange(0, i + 1).last() == phs@[i as int]);
        }
        if phs[i].kind == PT_LOAD {
            match load_area(&phs[i], bias, interp) {
                Err(e) => {
                    proof {
                        lemma_load_areas_err(phs@, bias, interp, i as int + 1, e);
                    }
                    return Err(e);
                },
                Ok(area) => {
                    let ghost before = areas@;
                    areas.push(area);
                    proof {
                        assert(areas@.drop_last() =~= before);
                    }
                    if area.end > farthest {
                        farthest = area.end;
                    }
                },
            }
        }
        i = i + 1;
    }
    proof {
        assert(phs@.subrange(0, i as int) =~= phs@);
    }
    Ok((areas, farthest))
}

proof fn lemma_load_areas_err(phs: Seq<ProgHeader>, bias: usize, interp: bool, n: int, e: &'static str)
    requires
        0 <= n <= phs.len(),
        load_areas_spec(phs.subrange(0, n), bias, interp) == Err::<Seq<LoadArea>, &'static str>(e),
    ensures
        load_areas_spec(phs, bias, interp) == Err::<Seq<LoadArea>, &'static str>(e),
    decreases phs.len() - n,
{
    if n < phs.len() {
        assert(phs.subrange(0, n + 1).drop_last() =~= phs.subrange(0, n));
        lemma_load_areas_err(phs, bias, interp, n + 1, e);
    } else {
        assert(phs.subrange(0, n) =~= phs);
    }
}

/// The areas a program's loadable segments become, in order, and the bias
/// at which an interpreter goes: the start of the page holding the
/// farthest segment end plus one page. Fails with the first segment check
/// that fails, without loadable segments, or when the bias overflows.
pub fn make_memory_set(phs: &Vec<ProgHeader>) -> (r: Result<(Vec<LoadArea>, usize), &'static str>)
    ensures
        match load_areas_spec(phs@, 0, false) {
            Err(e) => r == Err::<(Vec<LoadArea>, usize), &'static str>(e),
            Ok(a) => if a.len() == 0 {
                r == Err::<(Vec<LoadArea>, usize), &'static str>("elf has no load segment")
            } else if max_end(a) + PAGE_SZ > usize::MAX {
                r == Err::<(Vec<LoadArea>, usize), &'static str>("elf bias overflow")
            } else {
                r is Ok && r.unwrap().0@ == a && r.unwrap().1 == page_down(max_end(a) + PAGE_SZ)
            },
        },
{
    let (areas, farthest) = load_areas(phs, 0, false)?;
    if areas.len() == 0 {
        return Err("elf has no load segment");
    }
    let bias_addr = match farthest.checked_add(PAGE_SZ) {
        Some(b) => b,
        None => return Err("elf bias overflow"),
    };
    Ok((areas, bias_addr - bias_addr % PAGE_SZ))
}

/// The areas an interpreter's loadable segments become when placed at
/// `bias`, in order. Fails with the first segment check that fails, or
/// without loadable segments.
pub fn append_as_interpreter(phs: &Vec<ProgHeader>, bias: usize) -> (r: Result<Vec<LoadArea>, &'static str>)
    ensures
        match load_areas_spec(phs@, bias, true) {
            Err(e) => r == Err::<Vec<LoadArea>, &'static str>(e),
            Ok(a) => if a.len() == 0 {
                r == Err::<Vec<LoadArea>, &'static str>("elf interpreter has no load segment")
            } else {
                r is Ok && r.unwrap()@ == a
            },
        },
{
    let (areas, _farthest) = load_areas(phs, bias, true)?;
    if areas.len() == 0 {
        return Err("elf interpreter has no load segment");
    }
    Ok(areas)
}

/// The address of the first header table entry (`PT_PHDR`) among `phs`.
pub open spec fn first_phdr(phs: Seq<ProgHeader>) -> Option<u64>
    decreases phs.len(),
{
    if phs.len() == 0 {
        None
    } else if phs[0].kind == PT_PHDR {
        Some(phs[0].vaddr)
    } else {
        first_phdr(phs.drop_first())
    }
}

/// The address of the first loadable segment read from file offset 0.
pub open spec fn first_load_at_zero(phs: Seq<ProgHeader>) -> Option<u64>
    decreases phs.len(),
{
    if phs.len() == 0 {
        None
    } else if phs[0].kind == PT_LOAD && phs[0].offset == 0 {
        Some(phs[0].vaddr)
    } else {
        first_load_at_zero(phs.drop_first())
    }
}

/// Where the program headers are in memory: the `PT_PHDR` entry's address
/// when there is one; otherwise, when a loadable segment starts at file
/// offset 0, its address plus the header table's file offset `ph_offset`
/// ("elf phdr overflow" past 64 bits); otherwise unknown.
pub fn get_phdr_vaddr(phs: &Vec<ProgHeader>, ph_offset: u64) -> (r: Result<Option<u64>, &'static str>)
    ensures
        r == match first_phdr(phs@) {
            Some(v) => Ok(Some(v)),
            None => match first_load_at_zero(phs@) {
                Some(v) => if v + ph_offset > u64::MAX {
                    Err("elf phdr overflow")
                } else {
                    Ok(Some((v + ph_offset) as u64))
                },
                None => Ok(None),
            },
        },
{
    proof {
        assert(phs@.subrange(0, phs@.len() as int) =~= phs@);
    }
    let mut i: usize = 0;
    while i < phs.len()
        invariant
            i <= phs@.len(),
            first_phdr(phs@) == first_phdr(phs@.subrange(i as int, phs@.len() as int)),
        decreases phs@.len() - i,
    {
        proof {
            assert(phs@.subrange(i as int, phs@.len() as int).drop_first() =~= phs@.subrange(i + 1, phs@.len() as int));
        }
        if phs[i].kind == PT_PHDR {
            return Ok(Some(phs[i].vaddr));
        }
        i = i + 1;
    }
    proof {
        assert(phs@.subrange(i as int, phs@.len() as int).len() == 0);
    }
    let mut j: usize = 0;
    while j < phs.len()
        invariant
            j <= phs@.len(),
            first_phdr(phs@) is None,
            first_load_at_zero(phs@) == first_load_at_zero(phs@.subrange(j as int, phs@.len() as int)),
        decreases phs@.len() - j,
    {
        proof {
            assert(phs@.subrange(j as int, phs@.len() as int).drop_first() =~= phs@.subrange(j + 1, phs@.len() as int));
        }
        if phs[j].kind == PT_LOAD && phs[j].offset == 0 {
            return match phs[j].vaddr.checked_add(ph_offset) {
                Some(v) => Ok(Some(v)),
                None => Err("elf phdr overflow"),
            };
        }
        j = j + 1;
    }
    Ok(None)
}

/// The first interpreter header among `phs`.
pub open spec fn first_interp(phs: Seq<ProgHeader>) -> Option<ProgHeader>
    decreases phs.len(),
{
    if phs.len() == 0 {
        None
    } else if phs[0].kind == PT_INTERP {
        Some(phs[0])
    } else {
        first_interp(phs.drop_first())
    }
}

/// `s` without its trailing zero bytes.
pub open spec fn trim_nul(s: Seq<u8>) -> Seq<u8>
    decreases s.len(),
{
    if s.len() > 0 && s.last() == 0 {
        trim_nul(s.drop_last())
    } else {
        s
    }
}

/// `std::str::from_utf8`: the text whose UTF-8 encoding is `bytes`; by its
/// documentation it fails exactly when `bytes` is not valid UTF-8, and the
/// text it gives is those same bytes.
#[verifier::external_body]
fn text_of<'a>(bytes: &'a [u8]) -> (r: Option<&'a str>)
    ensures
        r is Some <==> valid_utf8(bytes@),
        r matches Some(t) ==> t.spec_bytes() == bytes@,
{
    std::str::from_utf8(bytes).ok()
}

/// The interpreter path of a program: the bytes of its first interpreter
/// segment in the file image `file`, without trailing zero bytes, as text.
/// "no interp header" without such a segment; "failed to convert to utf8"
/// when the bytes are not UTF-8. The segment must lie within the image.
pub fn get_interpreter<'a>(phs: &Vec<ProgHeader>, file: &'a [u8]) -> (r: Result<&'a str, &'static str>)
    requires
        first_interp(phs@) matches Some(ph) ==> ph.offset + ph.file_size <= file@.len(),
    ensures
        match first_interp(phs@) {
            None => r == Err::<&str, &'static str>("no interp header"),
            Some(ph) => {
                let b = trim_nul(file@.subrange(ph.offset as int, ph.offset + ph.file_size));
                if valid_utf8(b) {
                    r is Ok && r.unwrap().spec_bytes() == b
                } else {
                    r == Err::<&str, &'static str>("failed to convert to utf8")
                }
            },
        },
{
    proof {
        assert(phs@.subrange(0, phs@.len() as int) =~= phs@);
        assert(file@.len() == file.len());
    }
    let mut i: usize = 0;
    while i < phs.len()
        invariant
            i <= phs@.len(),
            first_interp(phs@) == first_interp(phs@.subrange(i as int, phs@.len() as int)),
            first_interp(phs@) matches Some(ph) ==> ph.offset + ph.file_size <= file@.len(),
            file@.len() <= usize::MAX,
        decreases phs@.len() - i,
    {
        proof {
            assert(phs@.subrange(i as int, phs@.len() as int).drop_first() =~= phs@.subrange(i + 1, phs@.len() as int));
        }
        if phs[i].kind == PT_INTERP {
            proof {
                assert(first_interp(phs@) == Some(phs@[i as int]));
            }
            let start = phs[i].offset as usize;
            let end = start + phs[i].file_size as usize;
            let mut data = vstd::slice::slice_subrange(file, start, end);
            while data.len() > 0 && data[data.len() - 1] == 0
                invariant
                    trim_nul(data@) == trim_nul(file@.subrange(start as int, end as int)),
                decreases data@.len(),
            {
                proof {
                    assert(data@.drop_last() =~= data@.subrange(0, data@.len() - 1));
                }
                data = vstd::slice::slice_subrange(data, 0, data.len() - 1);
            }
            proof {
                assert(trim_nul(data@) == data@);
            }
            return match text_of(data) {
                Some(t) => Ok(t),
                None => Err("failed to convert to utf8"),
            };
        }
        i = i + 1;
    }
    proof {
        assert(phs@.subrange(i as int, phs@.len() as int).len() == 0);
    }
    Err("no interp header")
}

} // verus!
