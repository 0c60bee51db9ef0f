use vstd::prelude::*;
use crate::consts::{PAGE_SZ, USR_STK_OFF};
use crate::vm::{VmMap, VmRegion};

verus! {

/// Place the mapping exactly at the requested address.
pub const MAP_FIXED: usize = 0x10;

/// `x` rounded up to a page boundary, none when that passes the largest word.
pub open spec fn page_up(x: int) -> Option<int> {
    if x + PAGE_SZ - 1 > usize::MAX {
        None
    } else {
        Some((x + PAGE_SZ - 1) - (x + PAGE_SZ - 1) % (PAGE_SZ as int))
    }
}

fn round_page_up(x: usize) -> (r: Option<usize>)
    ensures
        r == match page_up(x as int) {
            Some(v) => Some(v as usize),
            None => None::<usize>,
        },
{
    match x.checked_add(PAGE_SZ - 1) {
        Some(t) => Some(t - t % PAGE_SZ),
        None => None,
    }
}

/// Region `r` shares an address with `[start, end)`.
pub open spec fn meets(r: VmRegion, start: int, end: int) -> bool {
    r.base < end && start < r.base + r.len
}

/// Some region of `s` shares an address with `[start, end)`.
pub open spec fn any_meets(s: Seq<VmRegion>, start: int, end: int) -> bool {
    exists|i: int| 0 <= i < s.len() && meets(#[trigger] s[i], start, end)
}

fn any_region_meets(regions: &Vec<VmRegion>, start: usize, end: usize) -> (r: bool)
    ensures
        r == any_meets(regions@, start as int, end as int),
{
    let mut i: usize = 0;
    while i < regions.len()
        invariant
            i <= regions@.len(),
            forall|j: int| 0 <= j < i ==> !meets(#[trigger] regions@[j], start as int, end as int),
        decreases regions@.len() - i,
    {
        let r = &regions[i];
        if r.base < end && (start as u128) < (r.base as u128) + (r.len as u128) {
            return true;
        }
        i = i + 1;
    }
    false
}

/// What `brk(new_brk)` answers for a heap that starts at `brk_start` and
/// ends at `cur`: a zero request or one below the heap start reports the
/// current break; otherwise the request rounded up to a page, unless that
/// overflows or reaches the user stack ("enomem"), or the heap grows into
/// an existing region ("enomem"). The rounded current break is where the
/// heap's pages end, so growing maps `[page_up(cur), answer)` and shrinking
/// unmaps `[answer, page_up(cur))`.
pub open spec fn brk_spec(regions: Seq<VmRegion>, cur: usize, brk_start: usize, new_brk: usize) -> Result<usize, &'static str> {
    if new_brk == 0 || new_brk < brk_start {
        Ok(cur)
    } else {
        match page_up(new_brk as int) {
            None => Err("enomem"),
            Some(a) => if a >= USR_STK_OFF {
                Err("enomem")
            } else {
                match page_up(cur as int) {
                    None => Err("enomem"),
                    Some(c) => if a > c && any_meets(regions, c, a) {
                        Err("enomem")
                    } else {
                        Ok(a as usize)
                    },
                }
            },
        }
    }
}

/// The decision of `brk(new_brk)` against the regions of `vm` (see
/// `brk_spec`).
pub fn brk_step(vm: &VmMap, cur: usize, brk_start: usize, new_brk: usize) -> (r: Result<usize, &'static str>)
    ensures
        r == brk_spec(vm.regions@, cur, brk_start, new_brk),
{
    if new_brk == 0 || new_brk < brk_start {
        return Ok(cur);
    }
    let aligned = match round_page_up(new_brk) {
        Some(a) => a,
        None => return Err("enomem"),
    };
    if aligned >= USR_STK_OFF {
        return Err("enomem");
    }
    let current_aligned = match round_page_up(cur) {
        Some(c) => c,
        None => return Err("enomem"),
    };
    if aligned == current_aligned {
        return Ok(aligned);
    }
    if aligned > current_aligned && any_region_meets(&vm.regions, current_aligned, aligned) {
        return Err("enomem");
    }
    Ok(aligned)
}

/// Where `mmap(addr, len, _, flags, ..)` places a mapping, as `(start,
/// end)`: an empty request is refused ("einval"); address 0 means one
/// page; with `MAP_FIXED` the mapping goes at the address (after whatever
/// was mapped up to the page-rounded end is removed), otherwise at
/// `free_addr`, the free place that the address space's search found for
/// the request. An end past the largest word, or past it once rounded up
/// to a page, is refused ("einval").
pub open spec fn mmap_spec(addr: usize, len: usize, flags: usize, free_addr: usize) -> Result<(usize, usize), &'static str> {
    if len == 0 {
        Err("einval")
    } else {
        let a: int = if addr == 0 {
            PAGE_SZ as int
        } else {
            addr as int
        };
        if flags & MAP_FIXED != 0 && (a + len > usize::MAX || page_up(a + len) is None) {
            Err("einval")
        } else {
            let start: int = if flags & MAP_FIXED != 0 {
                a
            } else {
                free_addr as int
            };
            if start + len > usize::MAX || page_up(start + len) is None {
                Err("einval")
            } else {
                Ok((start as usize, (start + len) as usize))
            }
        }
    }
}

/// The placement decision of `mmap` (see `mmap_spec`); `free_addr` is the
/// free-area search's answer for the request.
pub fn mmap_place(addr: usize, len: usize, flags: usize, free_addr: usize) -> (r: Result<(usize, usize), &'static str>)
    ensures
        r == mmap_spec(addr, len, flags, free_addr),
{
    if len == 0 {
        return Err("einval");
    }
    let a = if addr == 0 {
        PAGE_SZ
    } else {
        addr
    };
    let fixed = flags & MAP_FIXED != 0;
    if fixed {
        let end = match a.checked_add(len) {
            Some(e) => e,
            None => return Err("einval"),
        };
        if round_page_up(end).is_none() {
            return Err("einval");
        }
    }
    let start = if fixed {
        a
    } else {
        free_addr
    };
    let end = match start.checked_add(len) {
        Some(e) => e,
        None => return Err("einval"),
    };
    if round_page_up(end).is_none() {
        return Err("einval");
    }
    Ok((start, end))
}

/// The range `munmap(addr, len)` removes: `[addr, page_up(addr + len))`;
/// an empty or unaligned request, or an end past the largest word once
/// rounded, is refused ("einval").
pub open spec fn munmap_spec(addr: usize, len: usize) -> Result<(usize, usize), &'static str> {
    if len == 0 || addr % PAGE_SZ != 0 {
        Err("einval")
    } else if addr + len > usize::MAX {
        Err("einval")
    } else {
        match page_up(addr + len) {
            None => Err("einval"),
            Some(e) => Ok((addr, e as usize)),
        }
    }
}

/// The range `munmap` removes (see `munmap_spec`).
pub fn munmap_range(addr: usize, len: usize) -> (r: Result<(usize, usize), &'static str>)
    ensures
        r == munmap_spec(addr, len),
{
    if len == 0 || addr % PAGE_SZ != 0 {
        return Err("einval");
    }
    let end = match addr.checked_add(len) {
        Some(e) => e,
        None => return Err("einval"),
    };
    match round_page_up(end) {
        Some(e) => Ok((addr, e)),
        None => Err("einval"),
    }
}

/// `mprotect(addr, len, prot)`: accepted (0) when some region of `vm`
/// shares an address with `[addr, addr + len)`, "enomem" otherwise; the
/// protection itself is not changed.
pub fn sys_mprotect(vm: &VmMap, addr: usize, len: usize, prot: usize) -> (r: Result<usize, &'static str>)
    requires
        addr + len <= usize::MAX,
    ensures
        r == if any_meets(vm.regions@, addr as int, addr + len) {
            Ok::<usize, &'static str>(0)
        } else {
            Err("enomem")
        },
{
    if any_region_meets(&vm.regions, addr, addr + len) {
        Ok(0)
    } else {
        Err("enomem")
    }
}

} // verus!
