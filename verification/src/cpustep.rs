//! One parsed instruction step: full register, flag and pc state.

use vstd::prelude::*;
use crate::errors::DumpError;
use crate::hex::{
    hex_field, lemma_u32_hex8_roundtrip, parse_hex_field, u32_hex8, u8_hex2,
};

verus! {

/// Mathematical image of a [`CpuStep`].
#[verifier::ext_equal]
pub ghost struct CpuStepV {
    pub data: Seq<u32>,
    pub address: Seq<u32>,
    pub usp: u32,
    pub isp: u32,
    pub sfc: u32,
    pub dfc: u32,
    pub cacr: u32,
    pub vbr: u32,
    pub caar: u32,
    pub msp: u32,
    pub t: u8,
    pub s: bool,
    pub m: bool,
    pub x: bool,
    pub n: bool,
    pub z: bool,
    pub v: bool,
    pub c: bool,
    pub imask: bool,
    pub stp: bool,
    pub pc: u32,
    pub pc_note: Seq<u8>,
    pub note: Seq<u8>,
    pub pc_next: u32,
}

impl CpuStepV {
    /// Shape every parsed record has: eight registers of each bank and
    /// fixed-width, space-padded note fields.
    pub open spec fn wf(self) -> bool {
        &&& self.data.len() == 8
        &&& self.address.len() == 8
        &&& self.pc_note.len() == 24
        &&& self.note.len() == 64
    }
}

/// An instruction step with the register state dumped by the emulator.
/// `note` holds the disassembled instruction text.
pub struct CpuStep {
    pub data: Vec<u32>,
    pub address: Vec<u32>,
    pub usp: u32,
    pub isp: u32,
    pub sfc: u32,
    pub dfc: u32,
    pub cacr: u32,
    pub vbr: u32,
    pub caar: u32,
    pub msp: u32,
    pub t: u8,
    pub s: bool,
    pub m: bool,
    pub x: bool,
    pub n: bool,
    pub z: bool,
    pub v: bool,
    pub c: bool,
    pub imask: bool,
    pub stp: bool,
    pub pc: u32,
    pub pc_note: Vec<u8>,
    pub note: Vec<u8>,
    pub pc_next: u32,
}

impl View for CpuStep {
    type V = CpuStepV;

    open spec fn view(&self) -> CpuStepV {
        CpuStepV {
            data: self.data@,
            address: self.address@,
            usp: self.usp,
            isp: self.isp,
            sfc: self.sfc,
            dfc: self.dfc,
            cacr: self.cacr,
            vbr: self.vbr,
            caar: self.caar,
            msp: self.msp,
            t: self.t,
            s: self.s,
            m: self.m,
            x: self.x,
            n: self.n,
            z: self.z,
            v: self.v,
            c: self.c,
            imask: self.imask,
            stp: self.stp,
            pc: self.pc,
            pc_note: self.pc_note@,
            note: self.note@,
            pc_next: self.pc_next,
        }
    }
}

impl CpuStep {
    pub open spec fn wf(&self) -> bool {
        self@.wf()
    }
}

/// Change in call depth contributed by the instruction text: calls add one
/// level, returns remove one.
pub open spec fn spec_depth_mod(note: Seq<u8>) -> int {
    if note.len() >= 3 {
        // BSR or JSR enter a subroutine
        if (note[0] == 66 && note[1] == 83 && note[2] == 82) || (note[0] == 74 && note[1] == 83
            && note[2] == 82) {
            1
            // RTS or RTR leave one
        } else if (note[0] == 82 && note[1] == 84 && note[2] == 83) || (note[0] == 82 && note[1]
            == 84 && note[2] == 82) {
            -1
        } else {
            0
        }
    } else {
        0
    }
}

/// Is bit `k` set in `b`?
pub open spec fn u8_bit(b: u8, k: u8) -> bool {
    (b >> k) & 1 == 1
}

/// Should the change search flag data register `i` of `cur`: its masked
/// value reached `val` at this step while the predecessor's had not.
pub open spec fn reg_changed_to(cur: CpuStepV, prev: CpuStepV, val: u32, mask: u32, i: int) -> bool {
    cur.data[i] & mask == val && prev.data[i] & mask != val
}

/// A register whose masked value already equals the target in the
/// predecessor is never flagged: the mask marks transitions only.
pub proof fn lemma_no_flag_when_predecessor_matches(
    cur: CpuStepV,
    prev: CpuStepV,
    val: u32,
    mask: u32,
    i: int,
)
    requires
        prev.data[i] & mask == val,
    ensures
        !reg_changed_to(cur, prev, val, mask, i),
{
}

proof fn lemma_u8_bit_zero()
    by (bit_vector)
    ensures
        forall|k: u8| !u8_bit(0, k),
{
}

proof fn lemma_u8_bit_or()
    by (bit_vector)
    ensures
        forall|b: u8, k: u8| k < 8 ==> #[trigger] u8_bit(b | (1u8 << k), k),
        forall|b: u8, j: u8, k: u8|
            j < 8 && k < 8 && j != k ==> (#[trigger] u8_bit(b | (1u8 << k), j)) == u8_bit(b, j),
{
}

impl CpuStep {
    /// Bit mask of data registers that transitioned to the masked target
    /// value at this step, compared with the predecessor `prev`.
    pub fn register_changed_to(&self, prev: &CpuStep, val: u32, mask: u32) -> (r: u8)
        requires
            self.wf(),
            prev.wf(),
        ensures
            forall|i: int|
                0 <= i < 8 ==> #[trigger] u8_bit(r, i as u8) == reg_changed_to(
                    self@,
                    prev@,
                    val,
                    mask,
                    i,
                ),
    {
        let mut result: u8 = 0;
        let mut i: usize = 0;
        proof {
            lemma_u8_bit_zero();
        }
        while i < 8
            invariant
                self.wf(),
                prev.wf(),
                i <= 8,
                forall|j: int|
                    0 <= j < i ==> #[trigger] u8_bit(result, j as u8) == reg_changed_to(
                        self@,
                        prev@,
                        val,
                        mask,
                        j,
                    ),
                forall|j: int| i <= j < 8 ==> !(#[trigger] u8_bit(result, j as u8)),
            decreases 8 - i,
        {
            if self.data[i] & mask == val && prev.data[i] & mask != val {
                let b: u8 = 1u8 << (i as u8);
                proof {
                    lemma_u8_bit_or();
                }
                result = result | b;
            }
            i = i + 1;
        }
        result
    }

    /// Change in call depth caused by this instruction.
    pub fn depth_mod(&self) -> (r: i64)
        ensures
            r == spec_depth_mod(self.note@),
            -1 <= r <= 1,
    {
        if self.note.len() >= 3 {
            let a = self.note[0];
            let b = self.note[1];
            let c = self.note[2];
            if (a == 66 && b == 83 && c == 82) || (a == 74 && b == 83 && c == 82) {
                1
            } else if (a == 82 && b == 84 && c == 83) || (a == 82 && b == 84 && c == 82) {
                -1
            } else {
                0
            }
        } else {
            0
        }
    }
}

/// `s` with every trailing space removed.
pub open spec fn trim_trailing_spaces(s: Seq<u8>) -> Seq<u8>
    decreases s.len(),
{
    if s.len() > 0 && s.last() == 32 {
        trim_trailing_spaces(s.drop_last())
    } else {
        s
    }
}

/// One line of a pattern for an instruction search: either literal
/// instruction text or a run of single-byte wildcards.
pub enum PatternLine {
    Text(Vec<u8>),
    Wildcards(u32),
}

impl CpuStep {
    /// Pattern line for this step given its predecessor: contiguous steps
    /// contribute their trimmed mnemonic, a short forward gap contributes
    /// that many wildcard bytes, and anything else aborts the query.
    pub fn print_for_search(&self, prev: &CpuStep) -> (r: Result<PatternLine, DumpError>)
        ensures
            ({
                let gap = self.pc - prev.pc_next;
                match r {
                    Ok(PatternLine::Text(t)) => gap == 0 && t@ == trim_trailing_spaces(
                        self.pc_note@,
                    ),
                    Ok(PatternLine::Wildcards(w)) => 0 < gap < 80 && w == gap,
                    Err(e) => (gap < 0 && e == DumpError::NonMonotonicTrace) || (gap >= 80 && e
                        == DumpError::ExcessiveGap),
                }
            }),
    {
        let gap: i64 = (self.pc as i64) - (prev.pc_next as i64);
        if gap == 0 {
            let mut end: usize = self.pc_note.len();
            proof {
                assert(self.pc_note@.subrange(0, end as int) =~= self.pc_note@);
            }
            while end > 0 && self.pc_note[end - 1] == 32
                invariant
                    end <= self.pc_note@.len(),
                    trim_trailing_spaces(self.pc_note@) == trim_trailing_spaces(
                        self.pc_note@.subrange(0, end as int),
                    ),
                decreases end,
            {
                proof {
                    let cur = self.pc_note@.subrange(0, end as int);
                    let shorter = self.pc_note@.subrange(0, end - 1);
                    assert(cur.drop_last() =~= shorter);
                }
                end = end - 1;
            }
            let mut t: Vec<u8> = Vec::new();
            t.extend_from_slice(vstd::slice::slice_subrange(self.pc_note.as_slice(), 0, end));
            proof {
                let cur = self.pc_note@.subrange(0, end as int);
                assert(trim_trailing_spaces(cur) == cur);
                assert(t@ =~= cur);
            }
            Ok(PatternLine::Text(t))
        } else if gap < 0 {
            Err(DumpError::NonMonotonicTrace)
        } else if gap >= 80 {
            Err(DumpError::ExcessiveGap)
        } else {
            Ok(PatternLine::Wildcards(gap as u32))
        }
    }
}

} // verus!

verus! {

// --- fixed-layout text form -------------------------------------------
//
// A record occupies nine lines.  Lines that do not start with the expected
// prefix are skipped; every numeric field sits at a fixed column.

pub open spec fn pfx_d0() -> Seq<u8> {
    seq![32u8, 32, 68, 48, 32]
}

pub open spec fn pfx_d4() -> Seq<u8> {
    seq![32u8, 32, 68, 52, 32]
}

pub open spec fn pfx_a0() -> Seq<u8> {
    seq![32u8, 32, 65, 48, 32]
}

pub open spec fn pfx_a4() -> Seq<u8> {
    seq![32u8, 32, 65, 52, 32]
}

pub open spec fn pfx_usp() -> Seq<u8> {
    seq![85u8, 83, 80, 32, 32]
}

pub open spec fn pfx_cacr() -> Seq<u8> {
    seq![67u8, 65, 67, 82, 32]
}

pub open spec fn pfx_t() -> Seq<u8> {
    seq![84u8, 61]
}

pub open spec fn pfx_npc() -> Seq<u8> {
    seq![78u8, 101, 120, 116, 32, 80, 67]
}

/// Views of a vector of byte lines.
pub open spec fn line_views(lines: Seq<Vec<u8>>) -> Seq<Seq<u8>> {
    Seq::new(lines.len(), |i: int| lines[i]@)
}

pub open spec fn starts_with(l: Seq<u8>, p: Seq<u8>) -> bool {
    p.len() <= l.len() && forall|i: int| 0 <= i < p.len() ==> l[i] == p[i]
}

/// Index of the first line at or after `from` that starts with `p`; -1
/// when the stream is exhausted first.
pub open spec fn find_line(lv: Seq<Seq<u8>>, from: int, p: Seq<u8>) -> int
    decreases lv.len() - from,
{
    if from < 0 || from >= lv.len() {
        -1
    } else if starts_with(lv[from], p) {
        from
    } else {
        find_line(lv, from + 1, p)
    }
}

fn prefix_matches(line: &Vec<u8>, p: &Vec<u8>) -> (r: bool)
    ensures
        r == starts_with(line@, p@),
{
    if p.len() > line.len() {
        return false;
    }
    let mut i: usize = 0;
    while i < p.len()
        invariant
            i <= p@.len() <= line@.len(),
            forall|j: int| 0 <= j < i ==> line@[j] == p@[j],
        decreases p@.len() - i,
    {
        if line[i] != p[i] {
            return false;
        }
        i = i + 1;
    }
    true
}

fn find_line_from(lines: &Vec<Vec<u8>>, from: usize, p: &Vec<u8>) -> (r: Option<usize>)
    ensures
        match r {
            Some(k) => from <= k < lines@.len() && find_line(line_views(lines@), from as int, p@)
                == k,
            None => find_line(line_views(lines@), from as int, p@) == -1,
        },
{
    let ghost lv = line_views(lines@);
    if from >= lines.len() {
        return None;
    }
    let mut i: usize = from;
    while i < lines.len()
        invariant
            from <= i <= lines@.len(),
            find_line(lv, from as int, p@) == find_line(lv, i as int, p@),
            lv == line_views(lines@),
        decreases lines@.len() - i,
    {
        if prefix_matches(&lines[i], p) {
            proof {
                assert(lv[i as int] == lines@[i as int]@);
            }
            return Some(i);
        }
        proof {
            assert(lv[i as int] == lines@[i as int]@);
        }
        i = i + 1;
    }
    None
}

// --- spec-level record parser -----------------------------------------

pub open spec fn i_d0(lv: Seq<Seq<u8>>, from: int) -> int {
    find_line(lv, from, pfx_d0())
}

pub open spec fn i_d4(lv: Seq<Seq<u8>>, from: int) -> int {
    let i = i_d0(lv, from);
    if i < 0 {
        -1
    } else {
        find_line(lv, i + 1, pfx_d4())
    }
}

pub open spec fn i_a0(lv: Seq<Seq<u8>>, from: int) -> int {
    let i = i_d4(lv, from);
    if i < 0 {
        -1
    } else {
        find_line(lv, i + 1, pfx_a0())
    }
}

pub open spec fn i_a4(lv: Seq<Seq<u8>>, from: int) -> int {
    let i = i_a0(lv, from);
    if i < 0 {
        -1
    } else {
        find_line(lv, i + 1, pfx_a4())
    }
}

pub open spec fn i_usp(lv: Seq<Seq<u8>>, from: int) -> int {
    let i = i_a4(lv, from);
    if i < 0 {
        -1
    } else {
        find_line(lv, i + 1, pfx_usp())
    }
}

pub open spec fn i_cacr(lv: Seq<Seq<u8>>, from: int) -> int {
    let i = i_usp(lv, from);
    if i < 0 {
        -1
    } else {
        find_line(lv, i + 1, pfx_cacr())
    }
}

pub open spec fn i_t(lv: Seq<Seq<u8>>, from: int) -> int {
    let i = i_cacr(lv, from);
    if i < 0 {
        -1
    } else {
        find_line(lv, i + 1, pfx_t())
    }
}

/// The pc line is simply the next line after the status-bit line.
pub open spec fn i_pc(lv: Seq<Seq<u8>>, from: int) -> int {
    let i = i_t(lv, from);
    if i < 0 || i + 1 >= lv.len() {
        -1
    } else {
        i + 1
    }
}

pub open spec fn i_npc(lv: Seq<Seq<u8>>, from: int) -> int {
    let i = i_pc(lv, from);
    if i < 0 {
        -1
    } else {
        find_line(lv, i + 1, pfx_npc())
    }
}

/// The four register values of one quad line.
pub open spec fn reg_quad(l: Seq<u8>) -> Seq<u32> {
    seq![hex_field(l, 5, 8), hex_field(l, 19, 8), hex_field(l, 33, 8), hex_field(l, 47, 8)]
}

/// `s` truncated or space-padded to exactly `n` bytes.
pub open spec fn pad_to(s: Seq<u8>, n: int) -> Seq<u8> {
    Seq::new(n as nat, |i: int| if i < s.len() { s[i] } else { 32u8 })
}

/// Is the byte at `k` the digit one?  Missing bytes count as zero.
pub open spec fn bit_at(l: Seq<u8>, k: int) -> bool {
    0 <= k < l.len() && l[k] == 49
}

/// The 24-byte mnemonic column of the pc line; all-or-nothing on a line
/// that ends before the column does.
pub open spec fn pc_note_src(lp: Seq<u8>) -> Seq<u8> {
    if lp.len() >= 33 {
        lp.subrange(9, 33)
    } else {
        Seq::empty()
    }
}

/// The open-ended operand column of the pc line.
pub open spec fn note_src(lp: Seq<u8>) -> Seq<u8> {
    if lp.len() >= 34 {
        lp.subrange(34, lp.len() as int)
    } else {
        Seq::empty()
    }
}

/// Record assembled from the lines a successful scan selected.
pub open spec fn spec_parse_rec(lv: Seq<Seq<u8>>, from: int) -> CpuStepV {
    let ld0 = lv[i_d0(lv, from)];
    let ld4 = lv[i_d4(lv, from)];
    let la0 = lv[i_a0(lv, from)];
    let la4 = lv[i_a4(lv, from)];
    let l5 = lv[i_usp(lv, from)];
    let l6 = lv[i_cacr(lv, from)];
    let lb = lv[i_t(lv, from)];
    let lp = lv[i_pc(lv, from)];
    let ln = lv[i_npc(lv, from)];
    CpuStepV {
        data: reg_quad(ld0) + reg_quad(ld4),
        address: reg_quad(la0) + reg_quad(la4),
        usp: hex_field(l5, 5, 8),
        isp: hex_field(l5, 19, 8),
        sfc: hex_field(l5, 33, 8),
        dfc: hex_field(l5, 47, 8),
        cacr: hex_field(l6, 5, 8),
        vbr: hex_field(l6, 19, 8),
        caar: hex_field(l6, 33, 8),
        msp: hex_field(l6, 47, 8),
        t: hex_field(lb, 2, 2) as u8,
        s: bit_at(lb, 7),
        m: bit_at(lb, 11),
        x: bit_at(lb, 15),
        n: bit_at(lb, 19),
        z: bit_at(lb, 23),
        v: bit_at(lb, 27),
        c: bit_at(lb, 31),
        imask: bit_at(lb, 39),
        stp: bit_at(lb, 45),
        pc: hex_field(lp, 0, 8),
        pc_note: pad_to(pc_note_src(lp), 24),
        note: pad_to(note_src(lp), 64),
        pc_next: hex_field(ln, 9, 8),
    }
}

/// The record starting at line `from`, with the index of the first line
/// after it; `None` when the stream runs out before the record completes.
pub open spec fn spec_parse(lv: Seq<Seq<u8>>, from: int) -> Option<(CpuStepV, int)> {
    if from >= 0 && i_npc(lv, from) >= 0 {
        Some((spec_parse_rec(lv, from), i_npc(lv, from) + 1))
    } else {
        None
    }
}

fn prefix2(a: u8, b: u8) -> (r: Vec<u8>)
    ensures
        r@ == seq![a, b],
{
    let mut v: Vec<u8> = Vec::new();
    v.push(a);
    v.push(b);
    proof {
        assert(v@ =~= seq![a, b]);
    }
    v
}

fn prefix5(a: u8, b: u8, c: u8, d: u8, e: u8) -> (r: Vec<u8>)
    ensures
        r@ == seq![a, b, c, d, e],
{
    let mut v: Vec<u8> = Vec::new();
    v.push(a);
    v.push(b);
    v.push(c);
    v.push(d);
    v.push(e);
    proof {
        assert(v@ =~= seq![a, b, c, d, e]);
    }
    v
}

fn prefix7(a: u8, b: u8, c: u8, d: u8, e: u8, f: u8, g: u8) -> (r: Vec<u8>)
    ensures
        r@ == seq![a, b, c, d, e, f, g],
{
    let mut v: Vec<u8> = Vec::new();
    v.push(a);
    v.push(b);
    v.push(c);
    v.push(d);
    v.push(e);
    v.push(f);
    v.push(g);
    proof {
        assert(v@ =~= seq![a, b, c, d, e, f, g]);
    }
    v
}

fn bit_at_exec(l: &Vec<u8>, k: usize) -> (r: bool)
    ensures
        r == bit_at(l@, k as int),
{
    k < l.len() && l[k] == 49
}

impl CpuStep {
    /// Read one record from the line stream, scanning forward from `from`.
    ///
    /// Lines before each expected prefix are skipped; short or malformed
    /// fields parse as zero.  The only failure is running out of input.
    #[verifier::rlimit(60)]
    pub fn from_dump(lines: &Vec<Vec<u8>>, from: usize) -> (r: Result<(CpuStep, usize), DumpError>)
        ensures
            match r {
                Ok(parsed) => {
                    &&& parsed.0.wf()
                    &&& spec_parse(line_views(lines@), from as int) == Some(
                        (parsed.0@, parsed.1 as int),
                    )
                    &&& from < parsed.1 <= lines@.len()
                },
                Err(e) => {
                    &&& e == DumpError::EndOfInput
                    &&& spec_parse(line_views(lines@), from as int) is None
                },
            },
    {
        let ghost lv = line_views(lines@);
        let n_lines = lines.len();
        let kd0 = match find_line_from(lines, from, &prefix5(32, 32, 68, 48, 32)) {
            Some(k) => k,
            None => {
                return Err(DumpError::EndOfInput);
            },
        };
        let kd4 = match find_line_from(lines, kd0 + 1, &prefix5(32, 32, 68, 52, 32)) {
            Some(k) => k,
            None => {
                return Err(DumpError::EndOfInput);
            },
        };
        let ka0 = match find_line_from(lines, kd4 + 1, &prefix5(32, 32, 65, 48, 32)) {
            Some(k) => k,
            None => {
                return Err(DumpError::EndOfInput);
            },
        };
        let ka4 = match find_line_from(lines, ka0 + 1, &prefix5(32, 32, 65, 52, 32)) {
            Some(k) => k,
            None => {
                return Err(DumpError::EndOfInput);
            },
        };
        let k5 = match find_line_from(lines, ka4 + 1, &prefix5(85, 83, 80, 32, 32)) {
            Some(k) => k,
            None => {
                return Err(DumpError::EndOfInput);
            },
        };
        let k6 = match find_line_from(lines, k5 + 1, &prefix5(67, 65, 67, 82, 32)) {
            Some(k) => k,
            None => {
                return Err(DumpError::EndOfInput);
            },
        };
        let kb = match find_line_from(lines, k6 + 1, &prefix2(84, 61)) {
            Some(k) => k,
            None => {
                return Err(DumpError::EndOfInput);
            },
        };
        if kb + 1 >= lines.len() {
            return Err(DumpError::EndOfInput);
        }
        let kp = kb + 1;
        let kn = match find_line_from(lines, kp + 1, &prefix7(78, 101, 120, 116, 32, 80, 67)) {
            Some(k) => k,
            None => {
                return Err(DumpError::EndOfInput);
            },
        };
        proof {
            assert(i_d0(lv, from as int) == kd0);
            assert(i_d4(lv, from as int) == kd4);
            assert(i_a0(lv, from as int) == ka0);
            assert(i_a4(lv, from as int) == ka4);
            assert(i_usp(lv, from as int) == k5);
            assert(i_cacr(lv, from as int) == k6);
            assert(i_t(lv, from as int) == kb);
            assert(i_pc(lv, from as int) == kp);
            assert(i_npc(lv, from as int) == kn);
        }

        let mut data: Vec<u32> = Vec::new();
        let ld0 = &lines[kd0];
        data.push(parse_hex_field(ld0, 5, 8));
        data.push(parse_hex_field(ld0, 19, 8));
        data.push(parse_hex_field(ld0, 33, 8));
        data.push(parse_hex_field(ld0, 47, 8));
        let ld4 = &lines[kd4];
        data.push(parse_hex_field(ld4, 5, 8));
        data.push(parse_hex_field(ld4, 19, 8));
        data.push(parse_hex_field(ld4, 33, 8));
        data.push(parse_hex_field(ld4, 47, 8));
        proof {
            assert(lv[kd0 as int] == lines@[kd0 as int]@);
            assert(lv[kd4 as int] == lines@[kd4 as int]@);
            assert(data@ =~= reg_quad(lv[kd0 as int]) + reg_quad(lv[kd4 as int]));
        }

        let mut address: Vec<u32> = Vec::new();
        let la0 = &lines[ka0];
        address.push(parse_hex_field(la0, 5, 8));
        address.push(parse_hex_field(la0, 19, 8));
        address.push(parse_hex_field(la0, 33, 8));
        address.push(parse_hex_field(la0, 47, 8));
        let la4 = &lines[ka4];
        address.push(parse_hex_field(la4, 5, 8));
        address.push(parse_hex_field(la4, 19, 8));
        address.push(parse_hex_field(la4, 33, 8));
        address.push(parse_hex_field(la4, 47, 8));
        proof {
            assert(lv[ka0 as int] == lines@[ka0 as int]@);
            assert(lv[ka4 as int] == lines@[ka4 as int]@);
            assert(address@ =~= reg_quad(lv[ka0 as int]) + reg_quad(lv[ka4 as int]));
        }

        let l5 = &lines[k5];
        let l6 = &lines[k6];
        let lb = &lines[kb];
        let lp = &lines[kp];
        let ln = &lines[kn];
        proof {
            assert(lv[k5 as int] == lines@[k5 as int]@);
            assert(lv[k6 as int] == lines@[k6 as int]@);
            assert(lv[kb as int] == lines@[kb as int]@);
            assert(lv[kp as int] == lines@[kp as int]@);
            assert(lv[kn as int] == lines@[kn as int]@);
        }

        let mut pc_note: Vec<u8> = Vec::new();
        if lp.len() >= 33 {
            pc_note.extend_from_slice(vstd::slice::slice_subrange(lp.as_slice(), 9, 33));
        } else {
            let mut i: usize = 0;
            while i < 24
                invariant
                    pc_note@.len() == i,
                    i <= 24,
                    forall|j: int| 0 <= j < i ==> pc_note@[j] == 32u8,
                decreases 24 - i,
            {
                pc_note.push(32);
                i = i + 1;
            }
        }
        proof {
            assert(pc_note@ =~= pad_to(pc_note_src(lp@), 24));
        }

        let mut note: Vec<u8> = Vec::new();
        if lp.len() > 34 {
            let avail = if lp.len() - 34 < 64 {
                lp.len() - 34
            } else {
                64
            };
            note.extend_from_slice(vstd::slice::slice_subrange(lp.as_slice(), 34, 34 + avail));
        }
        proof {
            if note_src(lp@).len() < 64 {
                assert(note_src(lp@).len() <= note@.len());
            } else {
                assert(note@.len() == 64);
            }
        }
        while note.len() < 64
            invariant
                note@.len() <= 64,
                note_src(lp@).len() <= note@.len() || note@.len() == 64,
                forall|j: int|
                    0 <= j < note@.len() ==> note@[j] == pad_to(note_src(lp@), 64)[j],
            decreases 64 - note@.len(),
        {
            note.push(32);
        }
        proof {
            assert(note@ =~= pad_to(note_src(lp@), 64));
        }

        let step = CpuStep {
            data,
            address,
            usp: parse_hex_field(l5, 5, 8),
            isp: parse_hex_field(l5, 19, 8),
            sfc: parse_hex_field(l5, 33, 8),
            dfc: parse_hex_field(l5, 47, 8),
            cacr: parse_hex_field(l6, 5, 8),
            vbr: parse_hex_field(l6, 19, 8),
            caar: parse_hex_field(l6, 33, 8),
            msp: parse_hex_field(l6, 47, 8),
            t: parse_hex_field(lb, 2, 2) as u8,
            s: bit_at_exec(lb, 7),
            m: bit_at_exec(lb, 11),
            x: bit_at_exec(lb, 15),
            n: bit_at_exec(lb, 19),
            z: bit_at_exec(lb, 23),
            v: bit_at_exec(lb, 27),
            c: bit_at_exec(lb, 31),
            imask: bit_at_exec(lb, 39),
            stp: bit_at_exec(lb, 45),
            pc: parse_hex_field(lp, 0, 8),
            pc_note,
            note,
            pc_next: parse_hex_field(ln, 9, 8),
        };
        proof {
            assert(step@ =~= spec_parse_rec(lv, from as int));
        }
        Ok((step, kn + 1))
    }
}

} // verus!

verus! {

// --- rendering a record back into its text form -----------------------

/// A quad line: four labelled 8-digit values at columns 5, 19, 33 and 47.
pub open spec fn quad_line(
    l0: Seq<u8>,
    v0: u32,
    l1: Seq<u8>,
    v1: u32,
    l2: Seq<u8>,
    v2: u32,
    l3: Seq<u8>,
    v3: u32,
) -> Seq<u8> {
    l0 + u32_hex8(v0) + l1 + u32_hex8(v1) + l2 + u32_hex8(v2) + l3 + u32_hex8(v3)
}

pub open spec fn spec_reg_line(letter: u8, digit: u8, r: Seq<u32>, base: int) -> Seq<u8> {
    quad_line(
        seq![32u8, 32, letter, digit, 32],
        r[base],
        seq![32u8, 32, 32, letter, (digit + 1) as u8, 32],
        r[base + 1],
        seq![32u8, 32, 32, letter, (digit + 2) as u8, 32],
        r[base + 2],
        seq![32u8, 32, 32, letter, (digit + 3) as u8, 32],
        r[base + 3],
    )
}

pub open spec fn spec_usp_line(v: CpuStepV) -> Seq<u8> {
    quad_line(
        seq![85u8, 83, 80, 32, 32],
        v.usp,
        seq![32u8, 73, 83, 80, 32, 32],
        v.isp,
        seq![32u8, 83, 70, 67, 32, 32],
        v.sfc,
        seq![32u8, 68, 70, 67, 32, 32],
        v.dfc,
    )
}

pub open spec fn spec_cacr_line(v: CpuStepV) -> Seq<u8> {
    quad_line(
        seq![67u8, 65, 67, 82, 32],
        v.cacr,
        seq![32u8, 86, 66, 82, 32, 32],
        v.vbr,
        seq![32u8, 67, 65, 65, 82, 32],
        v.caar,
        seq![32u8, 77, 83, 80, 32, 32],
        v.msp,
    )
}

/// The status digit: one for a set flag, zero for a clear one.
pub open spec fn bitb(b: bool) -> u8 {
    if b {
        49u8
    } else {
        48u8
    }
}

pub open spec fn spec_bits_line(v: CpuStepV) -> Seq<u8> {
    seq![84u8, 61] + u8_hex2(v.t) + seq![32u8, 83, 61, bitb(v.s)] + seq![32u8, 77, 61, bitb(v.m)]
        + seq![32u8, 88, 61, bitb(v.x)] + seq![32u8, 78, 61, bitb(v.n)] + seq![
        32u8,
        90,
        61,
        bitb(v.z),
    ] + seq![32u8, 86, 61, bitb(v.v)] + seq![32u8, 67, 61, bitb(v.c)] + seq![
        32u8,
        73,
        77,
        65,
        83,
        75,
        61,
        bitb(v.imask),
    ] + seq![32u8, 83, 84, 80, 61, bitb(v.stp)]
}

pub open spec fn spec_pc_line(v: CpuStepV) -> Seq<u8> {
    u32_hex8(v.pc) + seq![32u8] + v.pc_note + seq![32u8] + v.note
}

pub open spec fn spec_npc_line(v: CpuStepV) -> Seq<u8> {
    seq![78u8, 101, 120, 116, 32, 80, 67, 58, 32] + u32_hex8(v.pc_next)
}

/// The nine text lines of one record.
pub open spec fn spec_render(v: CpuStepV) -> Seq<Seq<u8>> {
    seq![
        spec_reg_line(68, 48, v.data, 0),
        spec_reg_line(68, 52, v.data, 4),
        spec_reg_line(65, 48, v.address, 0),
        spec_reg_line(65, 52, v.address, 4),
        spec_usp_line(v),
        spec_cacr_line(v),
        spec_bits_line(v),
        spec_pc_line(v),
        spec_npc_line(v),
    ]
}

fn reg_line_exec(letter: u8, digit: u8, r: &Vec<u32>, base: usize) -> (out: Vec<u8>)
    requires
        digit <= 52,
        base + 4 <= r@.len(),
    ensures
        out@ == spec_reg_line(letter, digit, r@, base as int),
{
    let nr = r.len();
    let mut l: Vec<u8> = Vec::new();
    l.push(32);
    l.push(32);
    l.push(letter);
    l.push(digit);
    l.push(32);
    crate::hex::push_hex8(&mut l, r[base]);
    l.push(32);
    l.push(32);
    l.push(32);
    l.push(letter);
    l.push(digit + 1);
    l.push(32);
    crate::hex::push_hex8(&mut l, r[base + 1]);
    l.push(32);
    l.push(32);
    l.push(32);
    l.push(letter);
    l.push(digit + 2);
    l.push(32);
    crate::hex::push_hex8(&mut l, r[base + 2]);
    l.push(32);
    l.push(32);
    l.push(32);
    l.push(letter);
    l.push(digit + 3);
    l.push(32);
    crate::hex::push_hex8(&mut l, r[base + 3]);
    proof {
        assert(l@ =~= spec_reg_line(letter, digit, r@, base as int));
    }
    l
}

fn sys_label_line(
    n0: [u8; 5],
    v0: u32,
    n1: [u8; 6],
    v1: u32,
    n2: [u8; 6],
    v2: u32,
    n3: [u8; 6],
    v3: u32,
) -> (out: Vec<u8>)
    ensures
        out@ == quad_line(n0@, v0, n1@, v1, n2@, v2, n3@, v3),
{
    let mut l: Vec<u8> = Vec::new();
    l.extend_from_slice(n0.as_slice());
    crate::hex::push_hex8(&mut l, v0);
    l.extend_from_slice(n1.as_slice());
    crate::hex::push_hex8(&mut l, v1);
    l.extend_from_slice(n2.as_slice());
    crate::hex::push_hex8(&mut l, v2);
    l.extend_from_slice(n3.as_slice());
    crate::hex::push_hex8(&mut l, v3);
    proof {
        assert(l@ =~= quad_line(n0@, v0, n1@, v1, n2@, v2, n3@, v3));
    }
    l
}

fn bit_byte(b: bool) -> (r: u8)
    ensures
        r == bitb(b),
{
    if b {
        49
    } else {
        48
    }
}

fn push_flag3(out: &mut Vec<u8>, a: u8, flag: bool)
    ensures
        final(out)@ == old(out)@ + seq![32u8, a, 61, bitb(flag)],
{
    out.push(32);
    out.push(a);
    out.push(61);
    out.push(bit_byte(flag));
    proof {
        assert(out@ =~= old(out)@ + seq![32u8, a, 61, bitb(flag)]);
    }
}

#[verifier::rlimit(100)]
fn bits_line_exec(st: &CpuStep) -> (out: Vec<u8>)
    ensures
        out@ == spec_bits_line(st@),
{
    let mut bl: Vec<u8> = Vec::new();
    bl.push(84);
    bl.push(61);
    crate::hex::push_hex2(&mut bl, st.t);
    proof {
        assert(bl@ =~= seq![84u8, 61] + u8_hex2(st@.t));
    }
    push_flag3(&mut bl, 83, st.s);
    push_flag3(&mut bl, 77, st.m);
    push_flag3(&mut bl, 88, st.x);
    push_flag3(&mut bl, 78, st.n);
    push_flag3(&mut bl, 90, st.z);
    push_flag3(&mut bl, 86, st.v);
    push_flag3(&mut bl, 67, st.c);
    bl.push(32);
    bl.push(73);
    bl.push(77);
    bl.push(65);
    bl.push(83);
    bl.push(75);
    bl.push(61);
    bl.push(bit_byte(st.imask));
    proof {
        assert(bl@ =~= seq![84u8, 61] + u8_hex2(st@.t) + seq![32u8, 83, 61, bitb(st@.s)] + seq![
            32u8,
            77,
            61,
            bitb(st@.m),
        ] + seq![32u8, 88, 61, bitb(st@.x)] + seq![32u8, 78, 61, bitb(st@.n)] + seq![
            32u8,
            90,
            61,
            bitb(st@.z),
        ] + seq![32u8, 86, 61, bitb(st@.v)] + seq![32u8, 67, 61, bitb(st@.c)] + seq![
            32u8,
            73,
            77,
            65,
            83,
            75,
            61,
            bitb(st@.imask),
        ]);
    }
    bl.push(32);
    bl.push(83);
    bl.push(84);
    bl.push(80);
    bl.push(61);
    bl.push(bit_byte(st.stp));
    proof {
        assert(bl@ =~= spec_bits_line(st@));
    }
    bl
}

fn pc_line_exec(st: &CpuStep) -> (out: Vec<u8>)
    ensures
        out@ == spec_pc_line(st@),
{
    let mut pl: Vec<u8> = Vec::new();
    crate::hex::push_hex8(&mut pl, st.pc);
    pl.push(32);
    pl.extend_from_slice(st.pc_note.as_slice());
    pl.push(32);
    pl.extend_from_slice(st.note.as_slice());
    proof {
        assert(pl@ =~= spec_pc_line(st@));
    }
    pl
}

fn npc_line_exec(st: &CpuStep) -> (out: Vec<u8>)
    ensures
        out@ == spec_npc_line(st@),
{
    let mut nl: Vec<u8> = Vec::new();
    nl.push(78);
    nl.push(101);
    nl.push(120);
    nl.push(116);
    nl.push(32);
    nl.push(80);
    nl.push(67);
    nl.push(58);
    nl.push(32);
    crate::hex::push_hex8(&mut nl, st.pc_next);
    proof {
        assert(nl@ =~= spec_npc_line(st@));
    }
    nl
}

impl CpuStep {
    /// Render the record in the emulator's dump layout, one byte line per
    /// text line.  Parsing the result restores every field.
    pub fn to_dump_lines(&self) -> (out: Vec<Vec<u8>>)
        requires
            self.wf(),
        ensures
            line_views(out@) == spec_render(self@),
    {
        let mut lines: Vec<Vec<u8>> = Vec::new();
        lines.push(reg_line_exec(68, 48, &self.data, 0));
        lines.push(reg_line_exec(68, 52, &self.data, 4));
        lines.push(reg_line_exec(65, 48, &self.address, 0));
        lines.push(reg_line_exec(65, 52, &self.address, 4));
        lines.push(
            sys_label_line(
                [85, 83, 80, 32, 32],
                self.usp,
                [32, 73, 83, 80, 32, 32],
                self.isp,
                [32, 83, 70, 67, 32, 32],
                self.sfc,
                [32, 68, 70, 67, 32, 32],
                self.dfc,
            ),
        );
        lines.push(
            sys_label_line(
                [67, 65, 67, 82, 32],
                self.cacr,
                [32, 86, 66, 82, 32, 32],
                self.vbr,
                [32, 67, 65, 65, 82, 32],
                self.caar,
                [32, 77, 83, 80, 32, 32],
                self.msp,
            ),
        );
        lines.push(bits_line_exec(self));
        lines.push(pc_line_exec(self));
        lines.push(npc_line_exec(self));
        proof {
            assert(line_views(lines@) =~= spec_render(self@));
        }
        lines
    }
}

// --- the round trip ----------------------------------------------------

proof fn lemma_quad_line_fields(
    l0: Seq<u8>,
    v0: u32,
    l1: Seq<u8>,
    v1: u32,
    l2: Seq<u8>,
    v2: u32,
    l3: Seq<u8>,
    v3: u32,
)
    requires
        l0.len() == 5,
        l1.len() == 6,
        l2.len() == 6,
        l3.len() == 6,
    ensures
        quad_line(l0, v0, l1, v1, l2, v2, l3, v3).len() == 55,
        hex_field(quad_line(l0, v0, l1, v1, l2, v2, l3, v3), 5, 8) == v0,
        hex_field(quad_line(l0, v0, l1, v1, l2, v2, l3, v3), 19, 8) == v1,
        hex_field(quad_line(l0, v0, l1, v1, l2, v2, l3, v3), 33, 8) == v2,
        hex_field(quad_line(l0, v0, l1, v1, l2, v2, l3, v3), 47, 8) == v3,
        quad_line(l0, v0, l1, v1, l2, v2, l3, v3).subrange(0, 5) == l0,
{
    let l = quad_line(l0, v0, l1, v1, l2, v2, l3, v3);
    lemma_u32_hex8_roundtrip(v0);
    lemma_u32_hex8_roundtrip(v1);
    lemma_u32_hex8_roundtrip(v2);
    lemma_u32_hex8_roundtrip(v3);
    assert(l.subrange(5, 13) =~= u32_hex8(v0));
    assert(l.subrange(19, 27) =~= u32_hex8(v1));
    assert(l.subrange(33, 41) =~= u32_hex8(v2));
    assert(l.subrange(47, 55) =~= u32_hex8(v3));
    assert(l.subrange(0, 5) =~= l0);
}

proof fn lemma_field_from_hex8(l: Seq<u8>, off: int, v: u32)
    requires
        0 <= off,
        off + 8 <= l.len(),
        l.subrange(off, off + 8) == u32_hex8(v),
    ensures
        hex_field(l, off, 8) == v,
{
    lemma_u32_hex8_roundtrip(v);
}

/// Parsing the rendered text layout restores every field of the record.
///
/// This is the lossless round trip of the documented dump format: the
/// spec-level parser applied to the spec-level renderer is the identity.
#[verifier::rlimit(100)]
pub proof fn lemma_parse_render_roundtrip(v: CpuStepV)
    requires
        v.wf(),
    ensures
        spec_parse(spec_render(v), 0) == Some((v, 9int)),
{
    let lv = spec_render(v);
    let l0 = lv[0];
    let l1 = lv[1];
    let l2 = lv[2];
    let l3 = lv[3];
    let l5 = lv[4];
    let l6 = lv[5];
    let lb = lv[6];
    let lp = lv[7];
    let ln = lv[8];
    lemma_quad_line_fields(
        seq![32u8, 32, 68, 48, 32],
        v.data[0],
        seq![32u8, 32, 32, 68, 49, 32],
        v.data[1],
        seq![32u8, 32, 32, 68, 50, 32],
        v.data[2],
        seq![32u8, 32, 32, 68, 51, 32],
        v.data[3],
    );
    lemma_quad_line_fields(
        seq![32u8, 32, 68, 52, 32],
        v.data[4],
        seq![32u8, 32, 32, 68, 53, 32],
        v.data[5],
        seq![32u8, 32, 32, 68, 54, 32],
        v.data[6],
        seq![32u8, 32, 32, 68, 55, 32],
        v.data[7],
    );
    lemma_quad_line_fields(
        seq![32u8, 32, 65, 48, 32],
        v.address[0],
        seq![32u8, 32, 32, 65, 49, 32],
        v.address[1],
        seq![32u8, 32, 32, 65, 50, 32],
        v.address[2],
        seq![32u8, 32, 32, 65, 51, 32],
        v.address[3],
    );
    lemma_quad_line_fields(
        seq![32u8, 32, 65, 52, 32],
        v.address[4],
        seq![32u8, 32, 32, 65, 53, 32],
        v.address[5],
        seq![32u8, 32, 32, 65, 54, 32],
        v.address[6],
        seq![32u8, 32, 32, 65, 55, 32],
        v.address[7],
    );
    lemma_quad_line_fields(
        seq![85u8, 83, 80, 32, 32],
        v.usp,
        seq![32u8, 73, 83, 80, 32, 32],
        v.isp,
        seq![32u8, 83, 70, 67, 32, 32],
        v.sfc,
        seq![32u8, 68, 70, 67, 32, 32],
        v.dfc,
    );
    lemma_quad_line_fields(
        seq![67u8, 65, 67, 82, 32],
        v.cacr,
        seq![32u8, 86, 66, 82, 32, 32],
        v.vbr,
        seq![32u8, 67, 65, 65, 82, 32],
        v.caar,
        seq![32u8, 77, 83, 80, 32, 32],
        v.msp,
    );

    // the scan selects the nine lines in order
    assert(starts_with(l0, pfx_d0()));
    assert(starts_with(l1, pfx_d4()));
    assert(starts_with(l2, pfx_a0()));
    assert(starts_with(l3, pfx_a4()));
    assert(starts_with(l5, pfx_usp()));
    assert(starts_with(l6, pfx_cacr()));
    assert(lb[0] == 84 && lb[1] == 61 && lb.len() >= 2);
    assert(starts_with(lb, pfx_t()));
    assert(ln[0] == 78 && ln[1] == 101 && ln[2] == 120 && ln[3] == 116 && ln[4] == 32 && ln[5]
        == 80 && ln[6] == 67);
    assert(starts_with(ln, pfx_npc()));
    assert(i_d0(lv, 0) == 0);
    assert(i_d4(lv, 0) == 1);
    assert(i_a0(lv, 0) == 2);
    assert(i_a4(lv, 0) == 3);
    assert(i_usp(lv, 0) == 4);
    assert(i_cacr(lv, 0) == 5);
    assert(i_t(lv, 0) == 6);
    assert(i_pc(lv, 0) == 7);
    assert(i_npc(lv, 0) == 8);

    // status-bit fields
    crate::hex::lemma_u8_hex2_roundtrip(v.t);
    assert(lb.subrange(2, 4) =~= u8_hex2(v.t));
    assert(hex_field(lb, 2, 2) == v.t);
    assert(lb[7] == bitb(v.s) && lb[11] == bitb(v.m) && lb[15] == bitb(v.x) && lb[19] == bitb(v.n)
        && lb[23] == bitb(v.z) && lb[27] == bitb(v.v) && lb[31] == bitb(v.c) && lb[39] == bitb(
        v.imask,
    ) && lb[45] == bitb(v.stp));
    assert(bit_at(lb, 7) == v.s && bit_at(lb, 11) == v.m && bit_at(lb, 15) == v.x && bit_at(lb, 19)
        == v.n && bit_at(lb, 23) == v.z && bit_at(lb, 27) == v.v && bit_at(lb, 31) == v.c && bit_at(
        lb,
        39,
    ) == v.imask && bit_at(lb, 45) == v.stp);

    // pc line fields
    assert(lp.len() == 98);
    assert(lp.subrange(0, 8) =~= u32_hex8(v.pc));
    lemma_field_from_hex8(lp, 0, v.pc);
    assert(lp.subrange(9, 33) =~= v.pc_note);
    assert(pad_to(pc_note_src(lp), 24) =~= v.pc_note);
    assert(lp.subrange(34, 98) =~= v.note);
    assert(pad_to(note_src(lp), 64) =~= v.note);

    // next-pc line field
    assert(ln.subrange(9, 17) =~= u32_hex8(v.pc_next));
    lemma_field_from_hex8(ln, 9, v.pc_next);

    let rec = spec_parse_rec(lv, 0);
    assert(rec.data =~= v.data);
    assert(rec.address =~= v.address);
    assert(rec =~= v);
}

} // verus!
