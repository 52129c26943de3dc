//! Memory snapshots: captured regions, point lookups, asset correlation
//! and cross-group diffing.

use vstd::prelude::*;
use crate::hex::hex_field;
use crate::cpustep::line_views;

verus! {

/// One contiguous captured region covering the half-open range
/// `[from, to)`.
pub struct MemPart {
    pub from: u32,
    pub to: u32,
    pub data: Vec<u8>,
}

/// Mathematical image of a [`MemPart`].
#[verifier::ext_equal]
pub ghost struct MemPartV {
    pub from: u32,
    pub to: u32,
    pub data: Seq<u8>,
}

impl MemPartV {
    pub open spec fn wf(self) -> bool {
        self.to == self.from + self.data.len()
    }

    pub open spec fn covers(self, addr: u32) -> bool {
        self.from <= addr < self.to
    }
}

impl View for MemPart {
    type V = MemPartV;

    open spec fn view(&self) -> MemPartV {
        MemPartV { from: self.from, to: self.to, data: self.data@ }
    }
}

/// A partial memory snapshot: the set of regions that were captured.
pub struct MemDump {
    pub parts: Vec<MemPart>,
}

impl View for MemDump {
    type V = Seq<MemPartV>;

    open spec fn view(&self) -> Seq<MemPartV> {
        Seq::new(self.parts@.len(), |i: int| self.parts@[i]@)
    }
}

/// Index of the first region covering `addr`, or -1.
pub open spec fn first_part(parts: Seq<MemPartV>, addr: u32) -> int
    decreases parts.len(),
{
    if parts.len() == 0 {
        -1
    } else if parts[0].covers(addr) {
        0
    } else {
        let r = first_part(parts.drop_first(), addr);
        if r == -1 {
            -1
        } else {
            r + 1
        }
    }
}

/// Is `addr` inside any captured region?
pub open spec fn mem_covered(parts: Seq<MemPartV>, addr: u32) -> bool {
    first_part(parts, addr) != -1
}

/// The byte a point lookup returns for `addr`; the first covering region
/// decides.
pub open spec fn mem_byte_at(parts: Seq<MemPartV>, addr: u32) -> u8 {
    let p = parts[first_part(parts, addr)];
    p.data[addr - p.from]
}

pub proof fn lemma_first_part_range(parts: Seq<MemPartV>, addr: u32)
    ensures
        first_part(parts, addr) == -1 ==> forall|i: int|
            0 <= i < parts.len() ==> !(#[trigger] parts[i]).covers(addr),
        first_part(parts, addr) != -1 ==> 0 <= first_part(parts, addr) < parts.len() && parts[
            first_part(parts, addr)
        ].covers(addr) && (forall|i: int|
            0 <= i < first_part(parts, addr) ==> !(#[trigger] parts[i]).covers(addr)),
    decreases parts.len(),
{
    if parts.len() > 0 && !parts[0].covers(addr) {
        lemma_first_part_range(parts.drop_first(), addr);
        assert forall|i: int| 1 <= i < parts.len() implies parts.drop_first()[i - 1] == (
        #[trigger] parts[i]) by {}
    }
}

/// Result of a point lookup: either the unknown sentinel or a window of
/// captured bytes starting exactly at the requested address.
pub enum MemAt {
    Unknown(u32),
    Found(u32, Vec<u8>),
}

/// Mathematical image of a [`MemAt`].
#[verifier::ext_equal]
pub ghost enum MemAtV {
    Unknown(u32),
    Found(u32, Seq<u8>),
}

impl View for MemAt {
    type V = MemAtV;

    open spec fn view(&self) -> MemAtV {
        match self {
            MemAt::Unknown(a) => MemAtV::Unknown(*a),
            MemAt::Found(a, bytes) => MemAtV::Found(*a, bytes@),
        }
    }
}

/// What a point lookup yields: the unknown sentinel outside every
/// region, else the window of at least `max(count, 4)` bytes starting
/// exactly at `addr`, clipped at the region end.
pub open spec fn spec_mem_at(parts: Seq<MemPartV>, addr: u32, count: int) -> MemAtV {
    if first_part(parts, addr) == -1 {
        MemAtV::Unknown(addr)
    } else {
        let p = parts[first_part(parts, addr)];
        let off = addr - p.from;
        let want = if count > 4 {
            count
        } else {
            4
        };
        let end = if off + want <= p.data.len() {
            off + want
        } else {
            p.data.len() as int
        };
        MemAtV::Found(addr, p.data.subrange(off, end))
    }
}

impl MemDump {
    pub open spec fn wf(&self) -> bool {
        forall|i: int| 0 <= i < self@.len() ==> (#[trigger] self@[i]).wf()
    }

    /// Create an empty snapshot.
    pub fn new() -> (r: MemDump)
        ensures
            r.wf(),
            r@.len() == 0,
    {
        let r = MemDump { parts: Vec::new() };
        proof {
            assert(r@.len() == 0);
        }
        r
    }

    /// Append one captured region read from a binary region file whose
    /// name carries the start address.
    pub fn push_part(&mut self, start: u32, data: Vec<u8>)
        requires
            old(self).wf(),
            start + data@.len() <= u32::MAX,
        ensures
            final(self).wf(),
            final(self)@ == old(self)@ + seq![
                MemPartV { from: start, to: (start + data@.len()) as u32, data: data@ },
            ],
    {
        let ghost d = data@;
        let n = data.len();
        let to: u32 = start + (n as u32);
        self.parts.push(MemPart { from: start, to, data });
        proof {
            assert(self@ =~= old(self)@ + seq![
                MemPartV { from: start, to: (start + d.len()) as u32, data: d },
            ]);
        }
    }

    /// Find the byte stored for `addr`, if any region covers it.
    fn byte_lookup(&self, addr: u32) -> (r: Option<u8>)
        requires
            self.wf(),
        ensures
            match r {
                Some(b) => mem_covered(self@, addr) && b == mem_byte_at(self@, addr),
                None => !mem_covered(self@, addr),
            },
    {
        proof {
            lemma_first_part_range(self@, addr);
        }
        let mut i: usize = 0;
        while i < self.parts.len()
            invariant
                self.wf(),
                i <= self@.len(),
                forall|j: int| 0 <= j < i ==> !(#[trigger] self@[j]).covers(addr),
            decreases self@.len() - i,
        {
            let p = &self.parts[i];
            if p.from <= addr && addr < p.to {
                proof {
                    assert(self@[i as int] == self.parts@[i as int]@);
                    assert(self@[i as int].wf());
                    lemma_first_part_skip(self@, addr, i as int);
                }
                return Some(p.data[(addr - p.from) as usize]);
            }
            i = i + 1;
        }
        None
    }

    /// Point lookup: a window of at least `max(count, 4)` bytes starting
    /// at `addr` (clipped at the region end), or the unknown sentinel.
    pub fn get_mem_at(&self, addr: u32, count: usize) -> (r: MemAt)
        requires
            self.wf(),
        ensures
            r@ == spec_mem_at(self@, addr, count as int),
            match r {
                MemAt::Unknown(a) => a == addr && !mem_covered(self@, addr),
                MemAt::Found(a, bytes) => a == addr && mem_covered(self@, addr) && bytes@.len()
                    >= 1 && bytes@[0] == mem_byte_at(self@, addr),
            },
    {
        proof {
            lemma_first_part_range(self@, addr);
        }
        let mut i: usize = 0;
        while i < self.parts.len()
            invariant
                self.wf(),
                i <= self@.len(),
                forall|j: int| 0 <= j < i ==> !(#[trigger] self@[j]).covers(addr),
            decreases self@.len() - i,
        {
            let p = &self.parts[i];
            if p.from <= addr && addr < p.to {
                proof {
                    assert(self@[i as int] == self.parts@[i as int]@);
                    assert(self@[i as int].wf());
                    lemma_first_part_skip(self@, addr, i as int);
                }
                let off = (addr - p.from) as usize;
                let len = p.data.len();
                let want = if count > 4 {
                    count
                } else {
                    4
                };
                let end = if len - off <= want {
                    len
                } else {
                    off + want
                };
                let mut bytes: Vec<u8> = Vec::new();
                bytes.extend_from_slice(vstd::slice::slice_subrange(p.data.as_slice(), off, end));
                proof {
                    assert(bytes@ =~= p@.data.subrange(off as int, end as int));
                }
                return MemAt::Found(addr, bytes);
            }
            i = i + 1;
        }
        MemAt::Unknown(addr)
    }
}

proof fn lemma_first_part_skip(parts: Seq<MemPartV>, addr: u32, k: int)
    requires
        0 <= k < parts.len(),
        parts[k].covers(addr),
        forall|j: int| 0 <= j < k ==> !(#[trigger] parts[j]).covers(addr),
    ensures
        first_part(parts, addr) == k,
    decreases k,
{
    if k > 0 {
        lemma_first_part_skip(parts.drop_first(), addr, k - 1);
        assert forall|j: int| 0 <= j < k - 1 implies !(#[trigger] parts.drop_first()[j]).covers(
            addr,
        ) by {
            assert(parts.drop_first()[j] == parts[j + 1]);
        }
    }
}

/// Count of bytes that are not zero.
pub open spec fn count_nonzero(s: Seq<u8>) -> nat
    decreases s.len(),
{
    if s.len() == 0 {
        0
    } else {
        count_nonzero(s.drop_last()) + if s.last() != 0 {
            1nat
        } else {
            0nat
        }
    }
}

impl MemDump {
    /// Does the content carry enough non-zero bytes to be worth
    /// correlating?  Filters trivial or empty assets.
    pub fn check_entropy(data: &Vec<u8>) -> (r: bool)
        ensures
            r == (count_nonzero(data@) >= 8),
    {
        let mut cnt: u64 = 0;
        let mut i: usize = 0;
        while i < data.len()
            invariant
                i <= data@.len(),
                cnt == count_nonzero(data@.subrange(0, i as int)),
                cnt <= i,
            decreases data@.len() - i,
        {
            proof {
                let pre = data@.subrange(0, i as int);
                let post = data@.subrange(0, i + 1);
                assert(post.drop_last() =~= pre);
            }
            if data[i] != 0 {
                cnt = cnt + 1;
            }
            i = i + 1;
        }
        proof {
            assert(data@.subrange(0, data@.len() as int) =~= data@);
        }
        cnt >= 8
    }
}

// --- legacy text form ---------------------------------------------------

/// Column of hex pair `j` on a sixteen-byte row: pairs sit in groups of
/// two with one separating space.
pub open spec fn row_pair_col(j: int) -> int {
    9 + 2 * j + j / 2
}

/// The sixteen data bytes of one text row.
pub open spec fn row_bytes(l: Seq<u8>) -> Seq<u8> {
    Seq::new(16, |j: int| hex_field(l, row_pair_col(j), 2) as u8)
}

/// The row address of one text line.
pub open spec fn row_addr(l: Seq<u8>) -> u32 {
    hex_field(l, 0, 8)
}

/// Does this line terminate the text dump?  Loading stops at the first
/// line too short to hold a full row, and at an address too high for a
/// sixteen-byte row to fit in the address space.
pub open spec fn row_stops(l: Seq<u8>) -> bool {
    l.len() < 48 || row_addr(l) > 0xFFFF_FFEFu32
}

pub open spec fn zero_bytes(n: int) -> Seq<u8> {
    Seq::new(n as nat, |i: int| 0u8)
}

/// Regions accumulated from the text rows starting at line `i`, given
/// the regions already closed and the region being grown.
pub open spec fn spec_text_load(
    lv: Seq<Seq<u8>>,
    i: int,
    acc: Seq<MemPartV>,
    cur: Option<MemPartV>,
) -> Seq<MemPartV>
    decreases lv.len() - i,
{
    if i < 0 || i >= lv.len() || row_stops(lv[i]) {
        match cur {
            Some(c) => acc + seq![c],
            None => acc,
        }
    } else {
        let addr = row_addr(lv[i]);
        let bytes = row_bytes(lv[i]);
        match cur {
            None => spec_text_load(
                lv,
                i + 1,
                acc,
                Some(MemPartV { from: addr, to: (addr + 16) as u32, data: bytes }),
            ),
            Some(c) => {
                if c.to <= addr <= c.to + 15 {
                    // a gap of at most fifteen bytes merges, padded with zeros
                    spec_text_load(
                        lv,
                        i + 1,
                        acc,
                        Some(
                            MemPartV {
                                from: c.from,
                                to: (addr + 16) as u32,
                                data: c.data + zero_bytes(addr - c.to) + bytes,
                            },
                        ),
                    )
                } else {
                    spec_text_load(
                        lv,
                        i + 1,
                        acc + seq![c],
                        Some(MemPartV { from: addr, to: (addr + 16) as u32, data: bytes }),
                    )
                }
            },
        }
    }
}

} // verus!

verus! {

impl MemDump {
    /// Load the legacy text dump form: one line per sixteen-byte row,
    /// rows merging into a region while gaps stay below sixteen bytes.
    /// Loading stops at the first too-short line.
    pub fn load_from_text(lines: &Vec<Vec<u8>>) -> (r: MemDump)
        ensures
            r.wf(),
            r@ == spec_text_load(line_views(lines@), 0, Seq::empty(), None),
    {
        let ghost lv = line_views(lines@);
        let mut acc = MemDump { parts: Vec::new() };
        let mut cur: Option<MemPart> = None;
        let mut i: usize = 0;
        proof {
            assert(acc@ =~= Seq::<MemPartV>::empty());
        }
        while i < lines.len()
            invariant_except_break
                lv == line_views(lines@),
                i <= lines@.len(),
                acc.wf(),
                match cur {
                    Some(c) => c@.wf() && spec_text_load(lv, 0, Seq::empty(), None)
                        == spec_text_load(lv, i as int, acc@, Some(c@)),
                    None => spec_text_load(lv, 0, Seq::empty(), None) == spec_text_load(
                        lv,
                        i as int,
                        acc@,
                        None,
                    ),
                },
            ensures
                acc.wf(),
                match cur {
                    Some(c) => c@.wf() && spec_text_load(lv, 0, Seq::empty(), None) == acc@
                        + seq![c@],
                    None => spec_text_load(lv, 0, Seq::empty(), None) == acc@,
                },
            decreases lines@.len() - i,
        {
            let line = &lines[i];
            proof {
                assert(lv[i as int] == lines@[i as int]@);
            }
            if line.len() < 48 {
                break;
            }
            let addr = crate::hex::parse_hex_field(line, 0, 8);
            if addr > 0xFFFF_FFEF {
                break;
            }
            let mut bytes: Vec<u8> = Vec::new();
            let mut j: usize = 0;
            while j < 16
                invariant
                    bytes@.len() == j,
                    j <= 16,
                    lv[i as int] == lines@[i as int]@,
                    i < lines@.len(),
                    forall|k: int| 0 <= k < j ==> bytes@[k] == row_bytes(lv[i as int])[k],
                decreases 16 - j,
            {
                let col = 9 + 2 * j + j / 2;
                bytes.push(crate::hex::parse_hex_field(&lines[i], col, 2) as u8);
                j = j + 1;
            }
            proof {
                assert(bytes@ =~= row_bytes(lv[i as int]));
            }
            match cur {
                None => {
                    let np = MemPart { from: addr, to: addr + 16, data: bytes };
                    proof {
                        assert(np@ =~= MemPartV {
                            from: addr,
                            to: (addr + 16) as u32,
                            data: row_bytes(lv[i as int]),
                        });
                        assert(np@.wf());
                        assert(spec_text_load(lv, i as int, acc@, None) == spec_text_load(
                            lv,
                            i + 1,
                            acc@,
                            Some(np@),
                        ));
                    }
                    cur = Some(np);
                },
                Some(c) => {
                    let ghost cv = c@;
                    if c.to <= addr && addr - c.to <= 15 {
                        let mut data = c.data;
                        let ghost old_data = data@;
                        let ghost cfrom = c.from;
                        let cto = c.to;
                        let mut pad: u32 = addr - c.to;
                        proof {
                            assert(data@ + zero_bytes(0) =~= data@);
                        }
                        while pad > 0
                            invariant
                                pad <= addr - cto,
                                data@ == old_data + zero_bytes(addr - cto - pad),
                            decreases pad,
                        {
                            data.push(0);
                            proof {
                                let k = addr - cto - pad;
                                assert(old_data + zero_bytes(k) + seq![0u8] =~= old_data
                                    + zero_bytes(k + 1));
                            }
                            pad = pad - 1;
                        }
                        let mut merged = data;
                        merged.append(&mut bytes);
                        proof {
                            assert(merged@ =~= old_data + zero_bytes(addr - cv.to) + row_bytes(
                                lv[i as int],
                            ));
                        }
                        let np = MemPart { from: c.from, to: addr + 16, data: merged };
                        proof {
                            let mv = MemPartV {
                                from: cv.from,
                                to: (addr + 16) as u32,
                                data: cv.data + zero_bytes(addr - cv.to) + row_bytes(lv[i as int]),
                            };
                            assert(np@ =~= mv);
                            assert(np@.wf());
                            assert(spec_text_load(lv, i as int, acc@, Some(cv)) == spec_text_load(
                                lv,
                                i + 1,
                                acc@,
                                Some(mv),
                            ));
                        }
                        cur = Some(np);
                    } else {
                        let ghost g_acc = acc@;
                        acc.parts.push(c);
                        proof {
                            assert(acc@ =~= g_acc + seq![cv]);
                            assert forall|k: int| 0 <= k < acc@.len() implies (
                            #[trigger] acc@[k]).wf() by {
                                if k < g_acc.len() {
                                    assert(acc@[k] == g_acc[k]);
                                } else {
                                    assert(acc@[k] == cv);
                                }
                            }
                        }
                        let np = MemPart { from: addr, to: addr + 16, data: bytes };
                        proof {
                            assert(np@ =~= MemPartV {
                                from: addr,
                                to: (addr + 16) as u32,
                                data: row_bytes(lv[i as int]),
                            });
                            assert(np@.wf());
                            assert(spec_text_load(lv, i as int, g_acc, Some(cv)) == spec_text_load(
                                lv,
                                i + 1,
                                g_acc + seq![cv],
                                Some(np@),
                            ));
                        }
                        cur = Some(np);
                    }
                },
            }
            i = i + 1;
        }
        match cur {
            Some(c) => {
                let ghost g_acc = acc@;
                let ghost cv = c@;
                acc.parts.push(c);
                proof {
                    assert(acc@ =~= g_acc + seq![cv]);
                    assert forall|k: int| 0 <= k < acc@.len() implies (#[trigger] acc@[k]).wf() by {
                        if k < g_acc.len() {
                            assert(acc@[k] == g_acc[k]);
                        } else {
                            assert(acc@[k] == cv);
                        }
                    }
                }
            },
            None => {},
        }
        acc
    }
}

} // verus!

verus! {

// --- substring search over regions -------------------------------------

/// Does `n` occur in `h` at position `i`?
pub open spec fn matches_at(h: Seq<u8>, n: Seq<u8>, i: int) -> bool {
    0 <= i && i + n.len() <= h.len() && h.subrange(i, i + n.len()) == n
}

/// Positions of the non-overlapping occurrences of `n` in `h` at or
/// after `from`, each found occurrence skipping its own length.
pub open spec fn occ_positions(h: Seq<u8>, n: Seq<u8>, from: int) -> Seq<int>
    decreases h.len() - from + 1,
{
    if n.len() == 0 || from < 0 || from + n.len() > h.len() {
        Seq::empty()
    } else if matches_at(h, n, from) {
        seq![from] + occ_positions(h, n, from + n.len())
    } else {
        occ_positions(h, n, from + 1)
    }
}

proof fn lemma_occ_head(h: Seq<u8>, n: Seq<u8>, from: int, m: int)
    requires
        n.len() >= 1,
        0 <= from <= m,
        matches_at(h, n, m),
        forall|j: int| from <= j < m ==> !matches_at(h, n, j),
    ensures
        occ_positions(h, n, from) == seq![m] + occ_positions(h, n, m + n.len()),
    decreases m - from,
{
    if from < m {
        lemma_occ_head(h, n, from + 1, m);
    }
}

proof fn lemma_occ_none(h: Seq<u8>, n: Seq<u8>, from: int)
    requires
        forall|j: int| from <= j ==> !matches_at(h, n, j),
        from >= 0,
    ensures
        occ_positions(h, n, from) == Seq::<int>::empty(),
    decreases h.len() - from + 1,
{
    if !(n.len() == 0 || from + n.len() > h.len()) {
        lemma_occ_none(h, n, from + 1);
    }
}

proof fn lemma_matches_shift(h: Seq<u8>, n: Seq<u8>, pos: int, j: int)
    requires
        0 <= pos <= h.len(),
        0 <= j,
    ensures
        matches_at(h.subrange(pos, h.len() as int), n, j) == matches_at(h, n, pos + j),
{
    let sub = h.subrange(pos, h.len() as int);
    if 0 <= j && j + n.len() <= sub.len() {
        assert(sub.subrange(j, j + n.len()) =~= h.subrange(pos + j, pos + j + n.len()));
    }
}

/// Relies on twoway::find_bytes: the index of the first occurrence of
/// `needle` as a substring of `haystack`, or `None` when there is none
/// (an empty needle is found at index zero).
#[verifier::external_body]
fn find_bytes(haystack: &[u8], needle: &[u8]) -> (r: Option<usize>)
    ensures
        match r {
            Some(i) => matches_at(haystack@, needle@, i as int) && forall|j: int|
                0 <= j < i ==> !matches_at(haystack@, needle@, j),
            None => forall|j: int| !matches_at(haystack@, needle@, j),
        },
{
    twoway::find_bytes(haystack, needle)
}

/// All non-overlapping occurrence positions of `needle` in `hay`.
fn occurrences_in(hay: &Vec<u8>, needle: &Vec<u8>) -> (r: Vec<usize>)
    requires
        needle@.len() >= 1,
    ensures
        r@.len() == occ_positions(hay@, needle@, 0).len(),
        forall|k: int| 0 <= k < r@.len() ==> r@[k] == occ_positions(hay@, needle@, 0)[k],
{
    let ghost target = occ_positions(hay@, needle@, 0);
    let mut out: Vec<usize> = Vec::new();
    let mut cur: usize = 0;
    loop
        invariant
            cur <= hay@.len(),
            needle@.len() >= 1,
            target == occ_positions(hay@, needle@, 0),
            out@.len() + occ_positions(hay@, needle@, cur as int).len() == target.len(),
            forall|k: int| 0 <= k < out@.len() ==> out@[k] == target[k],
            forall|k: int|
                0 <= k < occ_positions(hay@, needle@, cur as int).len() ==> occ_positions(
                    hay@,
                    needle@,
                    cur as int,
                )[k] == target[out@.len() + k],
        decreases hay@.len() - cur + 1,
    {
        let sl = vstd::slice::slice_subrange(hay.as_slice(), cur, hay.len());
        let found = find_bytes(sl, needle.as_slice());
        match found {
            Some(rel) => {
                let abs = cur + rel;
                let ghost cur0 = cur as int;
                proof {
                    lemma_matches_shift(hay@, needle@, cur as int, rel as int);
                    assert forall|j: int| cur <= j < abs implies !matches_at(
                        hay@,
                        needle@,
                        j,
                    ) by {
                        lemma_matches_shift(hay@, needle@, cur as int, j - cur);
                    }
                    lemma_occ_head(hay@, needle@, cur as int, abs as int);
                }
                out.push(abs);
                cur = abs + needle.len();
                proof {
                    let oc = occ_positions(hay@, needle@, cur0);
                    let rest = occ_positions(hay@, needle@, cur as int);
                    assert(oc == seq![abs as int] + rest);
                    assert(oc[0] == abs as int);
                    assert(target[out@.len() - 1] == abs as int);
                    assert forall|k: int| 0 <= k < rest.len() implies rest[k] == target[out@.len()
                        + k] by {
                        assert(oc[k + 1] == rest[k]);
                    }
                }
            },
            None => {
                proof {
                    assert forall|j: int| cur <= j implies !matches_at(hay@, needle@, j) by {
                        if j + needle@.len() <= hay@.len() {
                            lemma_matches_shift(hay@, needle@, cur as int, j - cur);
                        }
                    }
                    lemma_occ_none(hay@, needle@, cur as int);
                }
                return out;
            },
        }
    }
}

// --- mapping asset files into regions -----------------------------------

/// One external binary asset: an opaque source label and its content.
pub struct AssetFile {
    pub source: String,
    pub data: Vec<u8>,
}

/// One correlation row: where an asset's bytes occur in a region.
pub struct AssetFileV {
    pub source: Seq<char>,
    pub data: Seq<u8>,
}

impl View for AssetFile {
    type V = AssetFileV;

    open spec fn view(&self) -> AssetFileV {
        AssetFileV { source: self.source@, data: self.data@ }
    }
}

pub struct MapRow {
    pub source: String,
    pub mem_addr: u32,
    pub translated: u32,
    pub size: usize,
}

#[verifier::ext_equal]
pub ghost struct MapRowV {
    pub source: Seq<char>,
    pub mem_addr: u32,
    pub translated: u32,
    pub size: nat,
}

impl View for MapRow {
    type V = MapRowV;

    open spec fn view(&self) -> MapRowV {
        MapRowV {
            source: self.source@,
            mem_addr: self.mem_addr,
            translated: self.translated,
            size: self.size as nat,
        }
    }
}

pub open spec fn row_views(rows: Seq<MapRow>) -> Seq<MapRowV> {
    Seq::new(rows.len(), |i: int| rows[i]@)
}

pub open spec fn file_views(files: Seq<AssetFile>) -> Seq<AssetFileV> {
    Seq::new(files.len(), |i: int| files[i]@)
}

/// Subtraction that wraps at the address-space boundary.
pub open spec fn wsub32(a: u32, b: u32) -> u32 {
    if a >= b {
        (a - b) as u32
    } else {
        ((a + 0x1_0000_0000) - b) as u32
    }
}

pub fn wsub32_exec(a: u32, b: u32) -> (r: u32)
    ensures
        r == wsub32(a, b),
{
    if a >= b {
        a - b
    } else {
        (((a as u64) + 0x1_0000_0000u64 - (b as u64)) as u32)
    }
}

/// The rows one asset contributes inside one region.
pub open spec fn rows_for_part(src: Seq<char>, p: MemPartV, n: Seq<u8>, offset: u32) -> Seq<
    MapRowV,
> {
    occ_positions(p.data, n, 0).map_values(
        |pos: int|
            MapRowV {
                source: src,
                mem_addr: (p.from + pos) as u32,
                translated: wsub32((p.from + pos) as u32, offset),
                size: n.len(),
            },
    )
}

/// The rows one asset contributes over the first `k` regions.
pub open spec fn rows_for_file_upto(
    src: Seq<char>,
    parts: Seq<MemPartV>,
    n: Seq<u8>,
    offset: u32,
    k: int,
) -> Seq<MapRowV>
    decreases k,
{
    if k <= 0 {
        Seq::empty()
    } else {
        rows_for_file_upto(src, parts, n, offset, k - 1) + rows_for_part(
            src,
            parts[k - 1],
            n,
            offset,
        )
    }
}

/// The rows of the first `k` asset files; assets with fewer than eight
/// non-zero bytes are skipped.
pub open spec fn spec_map_rows(
    parts: Seq<MemPartV>,
    files: Seq<AssetFileV>,
    offset: u32,
    k: int,
) -> Seq<MapRowV>
    decreases k,
{
    if k <= 0 {
        Seq::empty()
    } else {
        spec_map_rows(parts, files, offset, k - 1) + (if count_nonzero(files[k - 1].data) >= 8 {
            rows_for_file_upto(files[k - 1].source, parts, files[k - 1].data, offset, parts.len() as int)
        } else {
            Seq::empty()
        })
    }
}

pub proof fn lemma_count_nonzero_le(s: Seq<u8>)
    ensures
        count_nonzero(s) <= s.len(),
    decreases s.len(),
{
    if s.len() > 0 {
        lemma_count_nonzero_le(s.drop_last());
    }
}

impl MemDump {
    /// Rows for one asset: every non-overlapping occurrence of its bytes
    /// in every region, with the absolute and offset-translated address.
    pub fn map_data_for(&self, source: &String, data: &Vec<u8>, offset: u32) -> (r: Vec<MapRow>)
        requires
            self.wf(),
            data@.len() >= 1,
        ensures
            row_views(r@) == rows_for_file_upto(
                source@,
                self@,
                data@,
                offset,
                self@.len() as int,
            ),
    {
        let mut out: Vec<MapRow> = Vec::new();
        let mut k: usize = 0;
        proof {
            assert(row_views(out@) =~= rows_for_file_upto(source@, self@, data@, offset, 0));
        }
        while k < self.parts.len()
            invariant
                self.wf(),
                data@.len() >= 1,
                k <= self@.len(),
                row_views(out@) == rows_for_file_upto(source@, self@, data@, offset, k as int),
            decreases self@.len() - k,
        {
            let ghost base = row_views(out@);
            let ghost pv = self@[k as int];
            let part = &self.parts[k];
            proof {
                assert(self@[k as int] == self.parts@[k as int]@);
                assert(pv.wf());
            }
            let occ = occurrences_in(&part.data, data);
            let mut t: usize = 0;
            while t < occ.len()
                invariant
                    self.wf(),
                    data@.len() >= 1,
                    k < self@.len(),
                    part@ == pv,
                    pv == self@[k as int],
                    pv.wf(),
                    pv == self.parts@[k as int]@,
                    t <= occ@.len(),
                    occ@.len() == occ_positions(pv.data, data@, 0).len(),
                    forall|u: int|
                        0 <= u < occ@.len() ==> occ@[u] == occ_positions(pv.data, data@, 0)[u],
                    row_views(out@).len() == base.len() + t,
                    forall|u: int| 0 <= u < base.len() ==> row_views(out@)[u] == base[u],
                    forall|u: int|
                        0 <= u < t ==> row_views(out@)[base.len() + u] == rows_for_part(
                            source@,
                            pv,
                            data@,
                            offset,
                        )[u],
                decreases occ@.len() - t,
            {
                let pos = occ[t];
                proof {
                    lemma_occ_in_range(pv.data, data@, 0, t as int);
                    assert(pos == occ_positions(pv.data, data@, 0)[t as int]);
                    assert(pv.from + pos + data@.len() <= pv.to);
                }
                let mem_addr = part.from + (pos as u32);
                let row = MapRow {
                    source: source.clone(),
                    mem_addr,
                    translated: wsub32_exec(mem_addr, offset),
                    size: data.len(),
                };
                let ghost rowv = row@;
                out.push(row);
                proof {
                    let rp = rows_for_part(source@, pv, data@, offset);
                    assert(rp[t as int] == MapRowV {
                        source: source@,
                        mem_addr: (pv.from + occ_positions(pv.data, data@, 0)[t as int]) as u32,
                        translated: wsub32(
                            (pv.from + occ_positions(pv.data, data@, 0)[t as int]) as u32,
                            offset,
                        ),
                        size: data@.len(),
                    });
                    assert(row_views(out@)[base.len() + t] == rowv);
                    assert(rowv =~= rp[t as int]);
                }
                t = t + 1;
            }
            proof {
                assert(row_views(out@) =~= base + rows_for_part(source@, pv, data@, offset));
                assert(row_views(out@) =~= rows_for_file_upto(
                    source@,
                    self@,
                    data@,
                    offset,
                    k + 1,
                ));
            }
            k = k + 1;
        }
        out
    }

    /// Correlate every asset file with the snapshot, skipping assets with
    /// fewer than eight non-zero bytes.
    pub fn map_data(&self, files: &Vec<AssetFile>, offset: u32) -> (r: Vec<MapRow>)
        requires
            self.wf(),
        ensures
            row_views(r@) == spec_map_rows(self@, file_views(files@), offset, files@.len() as int),
    {
        let mut out: Vec<MapRow> = Vec::new();
        let mut k: usize = 0;
        proof {
            assert(row_views(out@) =~= spec_map_rows(self@, file_views(files@), offset, 0));
        }
        while k < files.len()
            invariant
                self.wf(),
                k <= files@.len(),
                row_views(out@) == spec_map_rows(self@, file_views(files@), offset, k as int),
            decreases files@.len() - k,
        {
            let ghost base = row_views(out@);
            let f = &files[k];
            proof {
                assert(file_views(files@)[k as int] == files@[k as int]@);
            }
            if MemDump::check_entropy(&f.data) {
                proof {
                    lemma_count_nonzero_le(f.data@);
                }
                let mut rows = self.map_data_for(&f.source, &f.data, offset);
                let ghost rv = row_views(rows@);
                out.append(&mut rows);
                proof {
                    assert(row_views(out@) =~= base + rv);
                }
            } else {
                proof {
                    assert(row_views(out@) =~= base + Seq::<MapRowV>::empty());
                }
            }
            k = k + 1;
        }
        out
    }
}

proof fn lemma_occ_in_range(h: Seq<u8>, n: Seq<u8>, from: int, k: int)
    requires
        0 <= k < occ_positions(h, n, from).len(),
    ensures
        0 <= occ_positions(h, n, from)[k],
        occ_positions(h, n, from)[k] + n.len() <= h.len(),
        matches_at(h, n, occ_positions(h, n, from)[k]),
    decreases h.len() - from + 1, k,
{
    if !(n.len() == 0 || from < 0 || from + n.len() > h.len()) {
        if matches_at(h, n, from) {
            if k > 0 {
                lemma_occ_in_range(h, n, from + n.len(), k - 1);
            }
        } else {
            lemma_occ_in_range(h, n, from + 1, k);
        }
    }
}

} // verus!

verus! {

// --- diffing snapshots ---------------------------------------------------

/// Strictly increasing: the canonical form of an address set.
pub open spec fn sorted_strict(s: Seq<u32>) -> bool {
    forall|i: int, j: int| 0 <= i < j < s.len() ==> s[i] < s[j]
}

/// The set an address list stands for.
pub open spec fn set_of(s: Seq<u32>) -> Set<u32> {
    Set::new(|x: u32| s.contains(x))
}

/// Do the two snapshots disagree at `addr`?  Only addresses covered by
/// both can disagree.
pub open spec fn differs_at(a: Seq<MemPartV>, b: Seq<MemPartV>, addr: u32) -> bool {
    mem_covered(a, addr) && mem_covered(b, addr) && mem_byte_at(a, addr) != mem_byte_at(b, addr)
}

/// Insert `a` into a strictly sorted list, keeping it sorted; a present
/// address is left alone.
pub fn insert_sorted(v: &mut Vec<u32>, a: u32)
    requires
        sorted_strict(old(v)@),
    ensures
        sorted_strict(final(v)@),
        set_of(final(v)@) == set_of(old(v)@).insert(a),
{
    let mut idx: usize = 0;
    while idx < v.len() && v[idx] < a
        invariant
            idx <= v@.len(),
            sorted_strict(v@),
            v@ == old(v)@,
            forall|j: int| 0 <= j < idx ==> v@[j] < a,
        decreases v@.len() - idx,
    {
        idx = idx + 1;
    }
    if idx < v.len() && v[idx] == a {
        proof {
            assert(v@.contains(a));
            assert(set_of(v@) =~= set_of(old(v)@).insert(a));
        }
        return ;
    }
    let ghost pre = v@;
    v.insert(idx, a);
    proof {
        assert(v@ == pre.insert(idx as int, a));
        assert forall|i: int, j: int| 0 <= i < j < v@.len() implies v@[i] < v@[j] by {
            if j < idx {
            } else if i < idx && j == idx {
            } else if i < idx && j > idx {
                assert(v@[j] == pre[j - 1]);
            } else if i == idx {
                assert(v@[j] == pre[j - 1]);
                assert(pre[j - 1] >= a && pre[j - 1] != a);
            } else {
                assert(v@[i] == pre[i - 1] && v@[j] == pre[j - 1]);
            }
        }
        assert forall|x: u32| set_of(v@).contains(x) <==> set_of(pre).insert(a).contains(x) by {
            if x == a {
                assert(v@[idx as int] == a);
                assert(v@.contains(a));
            } else {
                if v@.contains(x) {
                    let w = choose|w: int| 0 <= w < v@.len() && v@[w] == x;
                    if w < idx {
                        assert(pre[w] == x);
                    } else {
                        assert(pre[w - 1] == x);
                    }
                    assert(pre.contains(x));
                }
                if pre.contains(x) {
                    let w = choose|w: int| 0 <= w < pre.len() && pre[w] == x;
                    if w < idx {
                        assert(v@[w] == x);
                    } else {
                        assert(v@[w + 1] == x);
                    }
                    assert(v@.contains(x));
                }
            }
        }
        assert(set_of(v@) =~= set_of(pre).insert(a));
    }
}

/// Addresses scanned so far: those of the first `k` regions of `parts`
/// and the first `o` bytes of region `k`.
pub open spec fn scanned_before(parts: Seq<MemPartV>, k: int, o: int, x: u32) -> bool {
    (exists|j: int| 0 <= j < k && (#[trigger] parts[j]).covers(x)) || (k < parts.len()
        && parts[k].from <= x < parts[k].from + o)
}

impl MemDump {
    /// Addresses at which a byte of this snapshot differs from `other`.
    ///
    /// With `candidates` given, only those addresses are examined.  With
    /// `same_group` the sense flips: the result keeps the candidates that
    /// do *not* differ, which removes in-group noise from a candidate
    /// set; without candidates it is empty.
    pub fn diff_only(
        &self,
        other: &MemDump,
        candidates: Option<&Vec<u32>>,
        same_group: bool,
    ) -> (r: Vec<u32>)
        requires
            self.wf(),
            other.wf(),
            match candidates {
                Some(c) => sorted_strict(c@),
                None => true,
            },
        ensures
            sorted_strict(r@),
            match candidates {
                Some(c) => {
                    if same_group {
                        set_of(r@) == Set::new(
                            |x: u32| c@.contains(x) && !differs_at(self@, other@, x),
                        )
                    } else {
                        set_of(r@) == Set::new(
                            |x: u32| c@.contains(x) && differs_at(self@, other@, x),
                        )
                    }
                },
                None => {
                    if same_group {
                        set_of(r@) == Set::<u32>::empty()
                    } else {
                        set_of(r@) == Set::new(|x: u32| differs_at(self@, other@, x))
                    }
                },
            },
    {
        let mut out: Vec<u32> = Vec::new();
        match candidates {
            Some(c) => {
                let mut i: usize = 0;
                while i < c.len()
                    invariant
                        self.wf(),
                        other.wf(),
                        i <= c@.len(),
                        sorted_strict(out@),
                        set_of(out@) == Set::new(
                            |x: u32|
                                c@.subrange(0, i as int).contains(x) && (same_group
                                    != differs_at(self@, other@, x)),
                        ),
                    decreases c@.len() - i,
                {
                    let ghost pre = set_of(out@);
                    let a = c[i];
                    let sb = self.byte_lookup(a);
                    let ob = other.byte_lookup(a);
                    let differs = match (sb, ob) {
                        (Some(x), Some(y)) => x != y,
                        _ => false,
                    };
                    if differs != same_group {
                        insert_sorted(&mut out, a);
                    }
                    proof {
                        let grown = c@.subrange(0, i + 1);
                        assert(grown.drop_last() =~= c@.subrange(0, i as int));
                        assert(grown.last() == c@[i as int]);
                        assert forall|x: u32| grown.contains(x) <==> (c@.subrange(
                            0,
                            i as int,
                        ).contains(x) || x == c@[i as int]) by {
                            if grown.contains(x) {
                                let w = choose|w: int| 0 <= w < grown.len() && grown[w] == x;
                                if w < i {
                                    assert(c@.subrange(0, i as int)[w] == x);
                                }
                            }
                            if c@.subrange(0, i as int).contains(x) {
                                let w = choose|w: int|
                                    0 <= w < i && c@.subrange(0, i as int)[w] == x;
                                assert(grown[w] == x);
                            }
                            if x == c@[i as int] {
                                assert(grown[i as int] == x);
                            }
                        }
                        assert(set_of(out@) =~= Set::new(
                            |x: u32|
                                grown.contains(x) && (same_group != differs_at(self@, other@, x)),
                        ));
                    }
                    i = i + 1;
                }
                proof {
                    assert(c@.subrange(0, c@.len() as int) =~= c@);
                    if same_group {
                        assert(set_of(out@) =~= Set::new(
                            |x: u32| c@.contains(x) && !differs_at(self@, other@, x),
                        ));
                    } else {
                        assert(set_of(out@) =~= Set::new(
                            |x: u32| c@.contains(x) && differs_at(self@, other@, x),
                        ));
                    }
                }
                out
            },
            None => {
                if same_group {
                    proof {
                        assert(set_of(out@) =~= Set::<u32>::empty());
                    }
                    return out;
                }
                let mut k: usize = 0;
                while k < self.parts.len()
                    invariant
                        self.wf(),
                        other.wf(),
                        k <= self@.len(),
                        sorted_strict(out@),
                        set_of(out@) == Set::new(
                            |x: u32|
                                scanned_before(self@, k as int, 0, x) && differs_at(
                                    self@,
                                    other@,
                                    x,
                                ),
                        ),
                    decreases self@.len() - k,
                {
                    let ghost pv = self@[k as int];
                    let part = &self.parts[k];
                    proof {
                        assert(self@[k as int] == self.parts@[k as int]@);
                        assert(pv.wf());
                    }
                    let len = part.data.len();
                    let mut o: usize = 0;
                    while o < len
                        invariant
                            self.wf(),
                            other.wf(),
                            k < self@.len(),
                            part@ == pv,
                            pv == self@[k as int],
                            pv.wf(),
                            len == pv.data.len(),
                            o <= len,
                            sorted_strict(out@),
                            set_of(out@) == Set::new(
                                |x: u32|
                                    scanned_before(self@, k as int, o as int, x) && differs_at(
                                        self@,
                                        other@,
                                        x,
                                    ),
                            ),
                        decreases len - o,
                    {
                        let a = part.from + (o as u32);
                        let sb = self.byte_lookup(a);
                        let ob = other.byte_lookup(a);
                        let differs = match (sb, ob) {
                            (Some(x), Some(y)) => x != y,
                            _ => false,
                        };
                        proof {
                            assert(pv.covers(a));
                            assert(differs == differs_at(self@, other@, a));
                        }
                        if differs {
                            insert_sorted(&mut out, a);
                        }
                        proof {
                            assert forall|x: u32|
                                scanned_before(self@, k as int, o + 1, x) <==> (scanned_before(
                                    self@,
                                    k as int,
                                    o as int,
                                    x,
                                ) || x == a) by {}
                            assert(set_of(out@) =~= Set::new(
                                |x: u32|
                                    scanned_before(self@, k as int, o + 1, x) && differs_at(
                                        self@,
                                        other@,
                                        x,
                                    ),
                            ));
                        }
                        o = o + 1;
                    }
                    proof {
                        assert forall|x: u32|
                            scanned_before(self@, k + 1, 0, x) <==> scanned_before(
                                self@,
                                k as int,
                                len as int,
                                x,
                            ) by {
                            if scanned_before(self@, k + 1, 0, x) {
                                let j = choose|j: int|
                                    0 <= j < k + 1 && (#[trigger] self@[j]).covers(x);
                                if j < k {
                                } else {
                                    assert(self@[k as int].covers(x));
                                }
                            }
                        }
                        assert(set_of(out@) =~= Set::new(
                            |x: u32|
                                scanned_before(self@, k + 1, 0, x) && differs_at(
                                    self@,
                                    other@,
                                    x,
                                ),
                        ));
                    }
                    k = k + 1;
                }
                proof {
                    lemma_scanned_full(self@, other@);
                    assert(set_of(out@) =~= Set::new(|x: u32| differs_at(self@, other@, x)));
                }
                out
            },
        }
    }
}

proof fn lemma_scanned_full(a: Seq<MemPartV>, b: Seq<MemPartV>)
    ensures
        forall|x: u32| #[trigger]
            differs_at(a, b, x) ==> scanned_before(a, a.len() as int, 0, x),
{
    assert forall|x: u32| #[trigger] differs_at(a, b, x) implies scanned_before(
        a,
        a.len() as int,
        0,
        x,
    ) by {
        lemma_first_part_range(a, x);
        let k = first_part(a, x);
        assert(a[k].covers(x));
    }
}

} // verus!

verus! {

// --- cross-group diffing -------------------------------------------------

/// Addresses at which two snapshots disagree.
pub open spec fn diff_set(a: Seq<MemPartV>, b: Seq<MemPartV>) -> Set<u32> {
    Set::new(|x: u32| differs_at(a, b, x))
}

/// One narrowing step of the cross-group pass.
pub open spec fn step_cross(
    a: Seq<MemPartV>,
    b: Seq<MemPartV>,
    st: Option<Set<u32>>,
) -> Set<u32> {
    match st {
        None => diff_set(a, b),
        Some(s) => s.intersect(diff_set(a, b)),
    }
}

/// One noise-removal step of the within-group pass.
pub open spec fn step_within(
    a: Seq<MemPartV>,
    b: Seq<MemPartV>,
    st: Option<Set<u32>>,
) -> Set<u32> {
    match st {
        None => Set::empty(),
        Some(s) => s.difference(diff_set(a, b)),
    }
}

/// Remaining cross-group pass from pair `(i, j)` on: every unordered
/// pair of group representatives narrows the candidate set.
pub open spec fn pass_cross(
    fs: Seq<Seq<MemPartV>>,
    i: int,
    j: int,
    st: Option<Set<u32>>,
) -> Option<Set<u32>>
    decreases fs.len() - i, fs.len() - j,
{
    if i < 0 || j <= i || i + 1 >= fs.len() {
        st
    } else if j >= fs.len() {
        pass_cross(fs, i + 1, i + 2, st)
    } else {
        pass_cross(fs, i, j + 1, Some(step_cross(fs[i], fs[j], st)))
    }
}

/// Remaining within-group pass over one group's snapshots from pair
/// `(i, j)` on.
pub open spec fn pass_within_group(
    ds: Seq<Seq<MemPartV>>,
    i: int,
    j: int,
    st: Option<Set<u32>>,
) -> Option<Set<u32>>
    decreases ds.len() - i, ds.len() - j,
{
    if i < 0 || j <= i || i + 1 >= ds.len() {
        st
    } else if j >= ds.len() {
        pass_within_group(ds, i + 1, i + 2, st)
    } else {
        pass_within_group(ds, i, j + 1, Some(step_within(ds[i], ds[j], st)))
    }
}

/// The within-group pass over the groups from `g` on.
pub open spec fn pass_within(
    gs: Seq<Seq<Seq<MemPartV>>>,
    g: int,
    st: Option<Set<u32>>,
) -> Option<Set<u32>>
    decreases gs.len() - g,
{
    if g < 0 || g >= gs.len() {
        st
    } else {
        pass_within(gs, g + 1, pass_within_group(gs[g], 0, 1, st))
    }
}

pub open spec fn group_firsts(groups: Seq<Vec<MemDump>>) -> Seq<Seq<MemPartV>> {
    Seq::new(groups.len(), |g: int| groups[g]@[0]@)
}

pub open spec fn group_dumps(g: Vec<MemDump>) -> Seq<Seq<MemPartV>> {
    Seq::new(g@.len(), |d: int| g@[d]@)
}

pub open spec fn all_group_dumps(groups: Seq<Vec<MemDump>>) -> Seq<Seq<Seq<MemPartV>>> {
    Seq::new(groups.len(), |g: int| group_dumps(groups[g]))
}

/// Net result of the two-pass protocol: addresses stable within every
/// group but distinguishing between groups; `None` when no pair was ever
/// compared.
pub open spec fn spec_diff_groups(groups: Seq<Vec<MemDump>>) -> Option<Set<u32>> {
    pass_within(all_group_dumps(groups), 0, pass_cross(group_firsts(groups), 0, 1, None))
}

/// The two-pass diff over snapshot groups: a cross-group pass over one
/// representative per group builds a candidate set of distinguishing
/// addresses, then a within-group pass removes addresses that also vary
/// inside a group.
pub fn diff_groups(groups: &Vec<Vec<MemDump>>) -> (r: Option<Vec<u32>>)
    requires
        forall|g: int| 0 <= g < groups@.len() ==> (#[trigger] groups@[g])@.len() >= 1,
        forall|g: int, d: int|
            0 <= g < groups@.len() && 0 <= d < groups@[g]@.len() ==> (#[trigger] groups@[g]@[d]).wf(),
    ensures
        match r {
            None => spec_diff_groups(groups@) is None,
            Some(v) => sorted_strict(v@) && spec_diff_groups(groups@) == Some(set_of(v@)),
        },
{
    let ghost fs = group_firsts(groups@);
    let ghost gv = all_group_dumps(groups@);
    let mut results: Option<Vec<u32>> = None;
    let n = groups.len();

    let mut i: usize = 0;
    while n - i > 1
        invariant
            n == groups@.len(),
            fs == group_firsts(groups@),
            gv == all_group_dumps(groups@),
            forall|g: int| 0 <= g < groups@.len() ==> (#[trigger] groups@[g])@.len() >= 1,
            forall|g: int, d: int|
                0 <= g < groups@.len() && 0 <= d < groups@[g]@.len() ==> (
                #[trigger] groups@[g]@[d]).wf(),
            i <= n,
            match results {
                None => pass_cross(fs, 0, 1, None) == pass_cross(fs, i as int, i + 1, None),
                Some(v) => sorted_strict(v@) && pass_cross(fs, 0, 1, None) == pass_cross(
                    fs,
                    i as int,
                    i + 1,
                    Some(set_of(v@)),
                ),
            },
        decreases n - i,
    {
        let mut j: usize = i + 1;
        while j < n
            invariant
                n == groups@.len(),
                fs == group_firsts(groups@),
                gv == all_group_dumps(groups@),
                forall|g: int| 0 <= g < groups@.len() ==> (#[trigger] groups@[g])@.len() >= 1,
                forall|g: int, d: int|
                    0 <= g < groups@.len() && 0 <= d < groups@[g]@.len() ==> (
                    #[trigger] groups@[g]@[d]).wf(),
                i + 1 < n,
                i < j <= n,
                match results {
                    None => pass_cross(fs, 0, 1, None) == pass_cross(fs, i as int, j as int, None),
                    Some(v) => sorted_strict(v@) && pass_cross(fs, 0, 1, None) == pass_cross(
                        fs,
                        i as int,
                        j as int,
                        Some(set_of(v@)),
                    ),
                },
            decreases n - j,
        {
            let a = &groups[i][0];
            let b = &groups[j][0];
            proof {
                assert(a@ == fs[i as int]);
                assert(b@ == fs[j as int]);
            }
            let next = match &results {
                Some(v) => a.diff_only(b, Some(v), false),
                None => a.diff_only(b, None, false),
            };
            proof {
                let ghost stv = match results {
                    Some(v) => Some(set_of(v@)),
                    None => None,
                };
                assert(set_of(next@) =~= step_cross(fs[i as int], fs[j as int], stv));
            }
            results = Some(next);
            j = j + 1;
        }
        i = i + 1;
    }
    proof {
        match results {
            None => {
                assert(pass_cross(fs, 0, 1, None) == pass_cross(fs, i as int, i + 1, None));
            },
            Some(ref v) => {},
        }
    }

    let mut g: usize = 0;
    while g < n
        invariant
            n == groups@.len(),
            fs == group_firsts(groups@),
            gv == all_group_dumps(groups@),
            forall|gg: int| 0 <= gg < groups@.len() ==> (#[trigger] groups@[gg])@.len() >= 1,
            forall|gg: int, d: int|
                0 <= gg < groups@.len() && 0 <= d < groups@[gg]@.len() ==> (
                #[trigger] groups@[gg]@[d]).wf(),
            g <= n,
            match results {
                None => spec_diff_groups(groups@) == pass_within(gv, g as int, None),
                Some(v) => sorted_strict(v@) && spec_diff_groups(groups@) == pass_within(
                    gv,
                    g as int,
                    Some(set_of(v@)),
                ),
            },
        decreases n - g,
    {
        let grp = &groups[g];
        let ghost ds = group_dumps(groups@[g as int]);
        let m = grp.len();
        proof {
            assert(gv[g as int] == ds);
        }
        let mut i2: usize = 0;
        while m - i2 > 1
            invariant
                n == groups@.len(),
                g < n,
                grp@ == groups@[g as int]@,
                ds == group_dumps(groups@[g as int]),
                gv == all_group_dumps(groups@),
                gv[g as int] == ds,
                m == grp@.len(),
                forall|d: int| 0 <= d < grp@.len() ==> (#[trigger] grp@[d]).wf(),
                i2 <= m,
                match results {
                    None => spec_diff_groups(groups@) == pass_within(
                        gv,
                        g + 1,
                        pass_within_group(ds, i2 as int, i2 + 1, None),
                    ),
                    Some(v) => sorted_strict(v@) && spec_diff_groups(groups@) == pass_within(
                        gv,
                        g + 1,
                        pass_within_group(ds, i2 as int, i2 + 1, Some(set_of(v@))),
                    ),
                },
            decreases m - i2,
        {
            let mut j2: usize = i2 + 1;
            while j2 < m
                invariant
                    n == groups@.len(),
                    g < n,
                    grp@ == groups@[g as int]@,
                    ds == group_dumps(groups@[g as int]),
                    gv == all_group_dumps(groups@),
                    gv[g as int] == ds,
                    m == grp@.len(),
                    forall|d: int| 0 <= d < grp@.len() ==> (#[trigger] grp@[d]).wf(),
                    i2 + 1 < m,
                    i2 < j2 <= m,
                    match results {
                        None => spec_diff_groups(groups@) == pass_within(
                            gv,
                            g + 1,
                            pass_within_group(ds, i2 as int, j2 as int, None),
                        ),
                        Some(v) => sorted_strict(v@) && spec_diff_groups(groups@) == pass_within(
                            gv,
                            g + 1,
                            pass_within_group(ds, i2 as int, j2 as int, Some(set_of(v@))),
                        ),
                    },
                decreases m - j2,
            {
                let a = &grp[i2];
                let b = &grp[j2];
                proof {
                    assert(a@ == ds[i2 as int]);
                    assert(b@ == ds[j2 as int]);
                }
                let next = match &results {
                    Some(v) => a.diff_only(b, Some(v), true),
                    None => a.diff_only(b, None, true),
                };
                proof {
                    let ghost stv = match results {
                        Some(v) => Some(set_of(v@)),
                        None => None,
                    };
                    assert(set_of(next@) =~= step_within(ds[i2 as int], ds[j2 as int], stv));
                }
                results = Some(next);
                j2 = j2 + 1;
            }
            i2 = i2 + 1;
        }
        g = g + 1;
    }
    results
}

} // verus!
