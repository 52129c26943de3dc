//! Presentation configuration and symbol lookup: plain data consumed by
//! the rendering layer, plus the verified address-to-name resolution.

use vstd::prelude::*;

verus! {

/// How much of an optional detail the rendering layer shows.
#[derive(Clone, Copy, Debug, PartialEq, Eq, Structural)]
pub enum Visibility {
    Hidden,
    Brief,
    Verbose,
}

/// One known function: an address range and its name.
pub struct GhidraFun {
    pub start: u32,
    pub end: u32,
    pub name: String,
}

impl GhidraFun {
    /// An unnamed function covering nothing.
    pub fn new() -> (r: GhidraFun)
        ensures
            r.start == 0,
            r.end == 0,
            r.name@ == Seq::<char>::empty(),
    {
        GhidraFun { start: 0, end: 0, name: String::new() }
    }
}

pub open spec fn fun_views(fs: Seq<GhidraFun>) -> Seq<(u32, u32, Seq<char>)> {
    Seq::new(fs.len(), |k: int| (fs[k].start, fs[k].end, fs[k].name@))
}

/// The last function whose start lies at or below `pc`, or -1.
pub open spec fn last_start_le(fs: Seq<(u32, u32, Seq<char>)>, pc: u32) -> int
    decreases fs.len(),
{
    if fs.len() == 0 {
        -1
    } else if fs.last().0 <= pc {
        fs.len() - 1
    } else {
        last_start_le(fs.drop_last(), pc)
    }
}

/// The known functions, kept sorted by start address, with the offset
/// their addresses were captured under.
pub struct GhidraInfo {
    pub functions: Vec<GhidraFun>,
    pub offset: u32,
}

impl GhidraInfo {
    pub open spec fn wf(&self) -> bool {
        forall|i: int, j: int|
            0 <= i < j < self.functions@.len() ==> self.functions@[i].start
                < self.functions@[j].start
    }

    /// An empty symbol table.
    pub fn new(offset: u32) -> (r: GhidraInfo)
        ensures
            r.wf(),
            r.functions@.len() == 0,
            r.offset == offset,
    {
        GhidraInfo { functions: Vec::new(), offset }
    }

    /// Add one function, keeping the table sorted by start address; a
    /// function whose start is already present is dropped.
    pub fn insert_fun(&mut self, f: GhidraFun)
        requires
            old(self).wf(),
        ensures
            final(self).wf(),
            final(self).offset == old(self).offset,
            (exists|k: int|
                0 <= k < old(self).functions@.len() && (#[trigger] old(self).functions@[k]).start
                    == f.start) ==> final(self).functions@ == old(self).functions@,
            !(exists|k: int|
                0 <= k < old(self).functions@.len() && (#[trigger] old(self).functions@[k]).start
                    == f.start) ==> exists|p: int|
                0 <= p <= old(self).functions@.len() && final(self).functions@ == #[trigger] old(
                    self,
                ).functions@.insert(p, f),
    {
        let ghost pre = self.functions@;
        let mut idx: usize = 0;
        while idx < self.functions.len() && self.functions[idx].start < f.start
            invariant
                idx <= self.functions@.len(),
                self.functions@ == pre,
                forall|j: int| 0 <= j < idx ==> (#[trigger] pre[j]).start < f.start,
            decreases self.functions@.len() - idx,
        {
            idx = idx + 1;
        }
        if idx < self.functions.len() && self.functions[idx].start == f.start {
            proof {
                assert((#[trigger] pre[idx as int]).start == f.start);
            }
            return ;
        }
        self.functions.insert(idx, f);
        proof {
            assert(self.functions@ == pre.insert(idx as int, f));
            assert forall|i: int, j: int|
                0 <= i < j < self.functions@.len() implies self.functions@[i].start
                < self.functions@[j].start by {
                if j < idx {
                } else if i < idx && j == idx {
                } else if i < idx {
                    assert(self.functions@[j] == pre[j - 1]);
                } else if i == idx {
                    assert(self.functions@[j] == pre[j - 1]);
                    assert(pre[j - 1].start >= pre[idx as int].start);
                    assert(pre[idx as int].start != f.start);
                } else {
                    assert(self.functions@[i] == pre[i - 1] && self.functions@[j] == pre[j - 1]);
                }
            }
        }
    }

    /// The name covering `address` (lowered by the table's offset,
    /// wrapping): the function with the greatest start at or below the
    /// pc, provided its range reaches the pc.
    pub fn name_for(&self, address: u32) -> (r: Option<String>)
        requires
            self.wf(),
        ensures
            ({
                let fs = fun_views(self.functions@);
                let pc = crate::memdump::wsub32(address, self.offset);
                let k = last_start_le(fs, pc);
                match r {
                    Some(nm) => k != -1 && fs[k].0 <= pc <= fs[k].1 && nm@ == fs[k].2,
                    None => k == -1 || !(fs[k].0 <= pc <= fs[k].1),
                }
            }),
    {
        let ghost fs = fun_views(self.functions@);
        let pc = crate::memdump::wsub32_exec(address, self.offset);
        let mut k: usize = self.functions.len();
        proof {
            assert(fs.subrange(0, fs.len() as int) =~= fs);
        }
        while k > 0
            invariant
                self.wf(),
                fs == fun_views(self.functions@),
                pc == crate::memdump::wsub32(address, self.offset),
                k <= self.functions@.len(),
                last_start_le(fs, pc) == last_start_le(fs.subrange(0, k as int), pc),
            decreases k,
        {
            proof {
                let cur = fs.subrange(0, k as int);
                let shorter = fs.subrange(0, k - 1);
                assert(cur.drop_last() =~= shorter);
                assert(cur.last() == fs[k - 1]);
            }
            if self.functions[k - 1].start <= pc {
                proof {
                    assert(last_start_le(fs, pc) == k - 1);
                }
                if pc <= self.functions[k - 1].end {
                    return Some(self.functions[k - 1].name.clone());
                } else {
                    return None;
                }
            }
            k = k - 1;
        }
        proof {
            assert(fs.subrange(0, 0) =~= Seq::<(u32, u32, Seq<char>)>::empty());
        }
        None
    }
}

/// Output formatting configuration: highlight replacements, layout
/// switches, the pc offset, and the symbol table.
pub struct FormatHelper {
    /// value text replaced by its highlighted form
    pub repl: Vec<(String, String)>,
    /// one line per instruction
    pub compact: bool,
    pub colors: bool,
    /// spaces per call-hierarchy level
    pub indent: i64,
    /// pc offset for the disassembler
    pub offset_mod: u32,
    pub print_both_offsets: bool,
    pub func_names: Visibility,
    pub show_interrupt: Visibility,
    pub info: GhidraInfo,
}

/// Addition that wraps at the address-space boundary.
pub open spec fn wadd32(a: u32, b: u32) -> u32 {
    ((a + b) % 0x1_0000_0000) as u32
}

impl FormatHelper {
    /// Plain configuration without highlighting.
    pub fn simple(compact: bool) -> (r: FormatHelper)
        ensures
            r.repl@.len() == 0,
            r.compact == compact,
            r.colors == false,
            r.indent == 2,
            r.offset_mod == 0,
            r.print_both_offsets == true,
            r.func_names == Visibility::Brief,
            r.show_interrupt == Visibility::Brief,
            r.info.wf(),
            r.info.functions@.len() == 0,
    {
        FormatHelper {
            repl: Vec::new(),
            compact,
            colors: false,
            indent: 2,
            offset_mod: 0,
            print_both_offsets: true,
            func_names: Visibility::Brief,
            show_interrupt: Visibility::Brief,
            info: GhidraInfo::new(0),
        }
    }

    /// The pc as the disassembler sees it: lowered by the offset, or
    /// raised into the top of the address space when it lies below it.
    pub fn with_offset(&self, address: u32) -> (r: u32)
        ensures
            address >= self.offset_mod ==> r == address - self.offset_mod,
            address < self.offset_mod ==> r == wadd32(address, 0xF000_0000),
    {
        if address >= self.offset_mod {
            address - self.offset_mod
        } else {
            (((address as u64) + 0xF000_0000u64) % 0x1_0000_0000u64) as u32
        }
    }
}

} // verus!
