//! The trace index: the ordered record stream, its unique-entry-point
//! index, and the search, stack and call-hierarchy queries.

use vstd::prelude::*;
use crate::cpustep::{
    line_views, reg_changed_to, spec_depth_mod, spec_parse, trim_trailing_spaces, CpuStep,
    CpuStepV, PatternLine,
};
use crate::errors::DumpError;
use crate::memdump::{
    insert_sorted, set_of, sorted_strict, spec_mem_at, wsub32, wsub32_exec, MemAt, MemAtV, MemDump,
    MemPartV,
};

verus! {

/// Views of a vector of steps.
pub open spec fn step_views(steps: Seq<CpuStep>) -> Seq<CpuStepV> {
    Seq::new(steps.len(), |i: int| steps[i]@)
}

/// How often `pc` occurs in the trace.
pub open spec fn pc_count(svs: Seq<CpuStepV>, pc: u32) -> nat
    decreases svs.len(),
{
    if svs.len() == 0 {
        0
    } else {
        pc_count(svs.drop_last(), pc) + if svs.last().pc == pc {
            1nat
        } else {
            0nat
        }
    }
}

/// First trace position at or after `from` whose step has this `pc`; -1
/// when there is none.
pub open spec fn first_idx_of_pc(svs: Seq<CpuStepV>, pc: u32, from: int) -> int
    decreases svs.len() - from,
{
    if from < 0 || from >= svs.len() {
        -1
    } else if svs[from].pc == pc {
        from
    } else {
        first_idx_of_pc(svs, pc, from + 1)
    }
}

pub proof fn lemma_first_idx_range(svs: Seq<CpuStepV>, pc: u32, from: int)
    requires
        from >= 0,
    ensures
        first_idx_of_pc(svs, pc, from) == -1 ==> forall|j: int|
            from <= j < svs.len() ==> (#[trigger] svs[j]).pc != pc,
        first_idx_of_pc(svs, pc, from) != -1 ==> from <= first_idx_of_pc(svs, pc, from)
            < svs.len() && svs[first_idx_of_pc(svs, pc, from)].pc == pc && (forall|j: int|
            from <= j < first_idx_of_pc(svs, pc, from) ==> (#[trigger] svs[j]).pc != pc),
    decreases svs.len() - from,
{
    if 0 <= from < svs.len() && svs[from].pc != pc {
        lemma_first_idx_range(svs, pc, from + 1);
    }
}

/// The trace index: the ordered record stream plus the unique-entry
/// index mapping each once-occurring entry pc to its trace position.
pub struct Dump {
    pub singles: Vec<(u32, usize)>,
    pub steps: Vec<CpuStep>,
}

impl Dump {
    pub open spec fn svs(&self) -> Seq<CpuStepV> {
        step_views(self.steps@)
    }

    pub open spec fn wf(&self) -> bool {
        &&& forall|i: int| 0 <= i < self.steps@.len() ==> (#[trigger] self.steps@[i])@.wf()
        &&& forall|i: int, j: int|
            0 <= i < j < self.singles@.len() ==> self.singles@[i].0 < self.singles@[j].0
        &&& forall|k: int|
            0 <= k < self.singles@.len() ==> (#[trigger] self.singles@[k]).1 < self.steps@.len()
        &&& self.steps@.len() < 0x4000_0000_0000_0000
    }
}

// --- parsing the whole stream -------------------------------------------

/// `out` is the record sequence a scan from line `from` produces,
/// stopping at line `upto`.
pub open spec fn parses_to(lv: Seq<Seq<u8>>, from: int, out: Seq<CpuStepV>, upto: int) -> bool
    decreases out.len(),
{
    if out.len() == 0 {
        upto == from
    } else {
        match spec_parse(lv, from) {
            Some(step) => out[0] == step.0 && parses_to(lv, step.1, out.drop_first(), upto),
            None => false,
        }
    }
}

proof fn lemma_parses_to_snoc(lv: Seq<Seq<u8>>, from: int, out: Seq<CpuStepV>, p: int, s: CpuStepV, q: int)
    requires
        parses_to(lv, from, out, p),
        spec_parse(lv, p) == Some((s, q)),
    ensures
        parses_to(lv, from, out.push(s), q),
    decreases out.len(),
{
    if out.len() == 0 {
        assert(p == from);
        assert(out.push(s)[0] == s);
        assert(out.push(s).drop_first() =~= Seq::<CpuStepV>::empty());
        assert(parses_to(lv, q, out.push(s).drop_first(), q));
    } else {
        match spec_parse(lv, from) {
            Some(step) => {
                lemma_parses_to_snoc(lv, step.1, out.drop_first(), p, s, q);
                assert(out.push(s).drop_first() =~= out.drop_first().push(s));
                assert(out.push(s)[0] == out[0]);
            },
            None => {
                assert(false);
            },
        }
    }
}

impl Dump {
    /// Parse the whole trace text into its ordered record sequence; the
    /// scan ends when the stream is exhausted.
    pub fn parse_trace(lines: &Vec<Vec<u8>>) -> (r: Vec<CpuStep>)
        ensures
            forall|i: int| 0 <= i < r@.len() ==> (#[trigger] r@[i])@.wf(),
            exists|p: int|
                #[trigger] parses_to(line_views(lines@), 0, step_views(r@), p) && spec_parse(
                    line_views(lines@),
                    p,
                ) is None,
            r@.len() <= lines@.len(),
    {
        let ghost lv = line_views(lines@);
        let mut out: Vec<CpuStep> = Vec::new();
        let mut pos: usize = 0;
        proof {
            assert(step_views(out@) =~= Seq::<CpuStepV>::empty());
        }
        loop
            invariant
                lv == line_views(lines@),
                pos <= lines@.len(),
                out@.len() <= pos,
                forall|i: int| 0 <= i < out@.len() ==> (#[trigger] out@[i])@.wf(),
                parses_to(lv, 0, step_views(out@), pos as int),
            decreases lines@.len() - pos,
        {
            let ghost before = step_views(out@);
            match CpuStep::from_dump(lines, pos) {
                Ok(parsed) => {
                    let ghost sv = parsed.0@;
                    let ghost q = parsed.1 as int;
                    proof {
                        lemma_parses_to_snoc(lv, 0, before, pos as int, sv, q);
                    }
                    let next = parsed.1;
                    out.push(parsed.0);
                    pos = next;
                    proof {
                        assert(step_views(out@) =~= before.push(sv));
                    }
                },
                Err(_) => {
                    return out;
                },
            }
        }
    }
}

// --- building the unique-entry index ------------------------------------

/// Is `upairs` the ascending list of once-occurring pcs, each with its
/// single trace position?
pub open spec fn is_uniq_pairs(upairs: Seq<(u32, usize)>, svs: Seq<CpuStepV>) -> bool {
    &&& forall|i: int, j: int| 0 <= i < j < upairs.len() ==> upairs[i].0 < upairs[j].0
    &&& forall|k: int|
        0 <= k < upairs.len() ==> pc_count(svs, (#[trigger] upairs[k]).0) == 1 && upairs[k].1
            < svs.len() && svs[upairs[k].1 as int].pc == upairs[k].0 && first_idx_of_pc(
            svs,
            upairs[k].0,
            0,
        ) == upairs[k].1
    &&& forall|pc: u32|
        pc_count(svs, pc) == 1 ==> exists|k: int| 0 <= k < upairs.len() && (#[trigger] upairs[k]).0
            == pc
}

/// The entries kept from position `k` on, given the trace position of
/// the entry kept last: a unique pc equal to that step's stored next pc
/// is a straight-line continuation and is dropped.
pub open spec fn kept_from(
    upairs: Seq<(u32, usize)>,
    svs: Seq<CpuStepV>,
    k: int,
    prev_idx: int,
) -> Seq<(u32, usize)>
    decreases upairs.len() - k,
{
    if k < 0 || k >= upairs.len() {
        Seq::empty()
    } else if 0 <= prev_idx < svs.len() && upairs[k].0 == svs[prev_idx].pc_next {
        kept_from(upairs, svs, k + 1, prev_idx)
    } else {
        seq![upairs[k]] + kept_from(upairs, svs, k + 1, upairs[k].1 as int)
    }
}

/// The unique-entry index: the first unique pc, then each unique pc that
/// is not a continuation of the previously kept entry.
pub open spec fn kept_pairs(upairs: Seq<(u32, usize)>, svs: Seq<CpuStepV>) -> Seq<(u32, usize)> {
    if upairs.len() == 0 {
        Seq::empty()
    } else {
        seq![upairs[0]] + kept_from(upairs, svs, 1, upairs[0].1 as int)
    }
}

pub proof fn lemma_pc_count_le(svs: Seq<CpuStepV>, pc: u32)
    ensures
        pc_count(svs, pc) <= svs.len(),
    decreases svs.len(),
{
    if svs.len() > 0 {
        lemma_pc_count_le(svs.drop_last(), pc);
    }
}

pub proof fn lemma_pc_count_pos(svs: Seq<CpuStepV>, pc: u32)
    requires
        pc_count(svs, pc) >= 1,
    ensures
        exists|j: int| 0 <= j < svs.len() && (#[trigger] svs[j]).pc == pc,
    decreases svs.len(),
{
    if svs.len() > 0 {
        if svs.last().pc == pc {
            assert(svs[svs.len() - 1].pc == pc);
        } else {
            lemma_pc_count_pos(svs.drop_last(), pc);
            let j = choose|j: int|
                0 <= j < svs.drop_last().len() && (#[trigger] svs.drop_last()[j]).pc == pc;
            assert(svs[j].pc == pc);
        }
    }
}

proof fn lemma_kept_from_sub(
    upairs: Seq<(u32, usize)>,
    svs: Seq<CpuStepV>,
    k: int,
    prev_idx: int,
)
    ensures
        forall|x: int|
            0 <= x < kept_from(upairs, svs, k, prev_idx).len() ==> exists|t: int|
                k <= t < upairs.len() && #[trigger] kept_from(upairs, svs, k, prev_idx)[x]
                    == upairs[t],
    decreases upairs.len() - k,
{
    if 0 <= k < upairs.len() {
        if 0 <= prev_idx < svs.len() && upairs[k].0 == svs[prev_idx].pc_next {
            lemma_kept_from_sub(upairs, svs, k + 1, prev_idx);
            assert forall|x: int|
                0 <= x < kept_from(upairs, svs, k, prev_idx).len() implies exists|t: int|
                k <= t < upairs.len() && #[trigger] kept_from(upairs, svs, k, prev_idx)[x]
                    == upairs[t] by {
                let tail = kept_from(upairs, svs, k + 1, prev_idx);
                let t0 = choose|t0: int| k + 1 <= t0 < upairs.len() && tail[x] == upairs[t0];
                assert(kept_from(upairs, svs, k, prev_idx)[x] == upairs[t0]);
            }
        } else {
            lemma_kept_from_sub(upairs, svs, k + 1, upairs[k].1 as int);
            assert forall|x: int|
                0 <= x < kept_from(upairs, svs, k, prev_idx).len() implies exists|t: int|
                k <= t < upairs.len() && #[trigger] kept_from(upairs, svs, k, prev_idx)[x]
                    == upairs[t] by {
                if x == 0 {
                    assert(kept_from(upairs, svs, k, prev_idx)[0] == upairs[k]);
                } else {
                    let tail = kept_from(upairs, svs, k + 1, upairs[k].1 as int);
                    let t0 = choose|t0: int| k + 1 <= t0 < upairs.len() && tail[x - 1] == upairs[t0];
                    assert(kept_from(upairs, svs, k, prev_idx)[x] == upairs[t0]);
                }
            }
        }
    }
}

/// The unique-entry index never holds a pc whose trace occurrence count
/// exceeds one: every entry it keeps comes from the once-occurring pcs.
pub proof fn lemma_unique_index_counts(upairs: Seq<(u32, usize)>, svs: Seq<CpuStepV>)
    requires
        is_uniq_pairs(upairs, svs),
    ensures
        forall|x: int|
            0 <= x < kept_pairs(upairs, svs).len() ==> pc_count(
                svs,
                (#[trigger] kept_pairs(upairs, svs)[x]).0,
            ) == 1,
{
    if upairs.len() > 0 {
        lemma_kept_from_sub(upairs, svs, 1, upairs[0].1 as int);
        assert forall|x: int| 0 <= x < kept_pairs(upairs, svs).len() implies pc_count(
            svs,
            (#[trigger] kept_pairs(upairs, svs)[x]).0,
        ) == 1 by {
            if x == 0 {
                assert(kept_pairs(upairs, svs)[0] == upairs[0]);
            } else {
                let tail = kept_from(upairs, svs, 1, upairs[0].1 as int);
                let t0 = choose|t0: int| 1 <= t0 < upairs.len() && tail[x - 1] == upairs[t0];
                assert(kept_pairs(upairs, svs)[x] == upairs[t0]);
            }
        }
    }
}

proof fn lemma_pc_count_step(svs: Seq<CpuStepV>, i: int, pc: u32)
    requires
        0 <= i < svs.len(),
    ensures
        pc_count(svs.subrange(0, i + 1), pc) == pc_count(svs.subrange(0, i), pc) + if svs[i].pc
            == pc {
            1int
        } else {
            0int
        },
{
    let post = svs.subrange(0, i + 1);
    assert(post.drop_last() =~= svs.subrange(0, i));
    assert(post.last() == svs[i]);
}

impl Dump {
    /// Build the index from the full record stream: count per-pc
    /// occurrences and first positions, then keep the once-occurring pcs
    /// in ascending order, dropping straight-line continuations.
    ///
    /// Every indexed pc occurs exactly once in the trace, at exactly the
    /// recorded position.
    #[verifier::rlimit(100)]
    pub fn build(steps: Vec<CpuStep>) -> (d: Dump)
        requires
            forall|i: int| 0 <= i < steps@.len() ==> (#[trigger] steps@[i])@.wf(),
            steps@.len() < 0x4000_0000_0000_0000,
        ensures
            d.wf(),
            d.steps@ == steps@,
            forall|k: int|
                0 <= k < d.singles@.len() ==> pc_count(step_views(steps@), (
                #[trigger] d.singles@[k]).0) == 1 && d.singles@[k].1 < steps@.len() && step_views(
                    steps@,
                )[d.singles@[k].1 as int].pc == d.singles@[k].0 && first_idx_of_pc(
                    step_views(steps@),
                    d.singles@[k].0,
                    0,
                ) == d.singles@[k].1,
            exists|upairs: Seq<(u32, usize)>|
                is_uniq_pairs(upairs, step_views(steps@)) && d.singles@ == #[trigger] kept_pairs(
                    upairs,
                    step_views(steps@),
                ),
    {
        let ghost svs = step_views(steps@);
        // occurrence accounting: (pc, count so far, first position)
        let mut occ: Vec<(u32, usize, usize)> = Vec::new();
        let mut i: usize = 0;
        proof {
            assert(svs.subrange(0, 0) =~= Seq::<CpuStepV>::empty());
        }
        while i < steps.len()
            invariant
                svs == step_views(steps@),
                i <= steps@.len(),
                forall|a: int, b: int| 0 <= a < b < occ@.len() ==> occ@[a].0 < occ@[b].0,
                forall|k: int|
                    0 <= k < occ@.len() ==> (#[trigger] occ@[k]).2 < i && svs[occ@[k].2 as int].pc
                        == occ@[k].0 && first_idx_of_pc(svs, occ@[k].0, 0) == occ@[k].2
                        && occ@[k].1 == pc_count(svs.subrange(0, i as int), occ@[k].0)
                        && occ@[k].1 >= 1,
                forall|j: int|
                    #![trigger svs[j]]
                    0 <= j < i ==> exists|k: int|
                        0 <= k < occ@.len() && (#[trigger] occ@[k]).0 == svs[j].pc,
            decreases steps@.len() - i,
        {
            let pc = steps[i].pc;
            proof {
                assert(svs[i as int] == steps@[i as int]@);
            }
            // find the insertion or update position
            let mut pos: usize = 0;
            while pos < occ.len() && occ[pos].0 < pc
                invariant
                    pos <= occ@.len(),
                    forall|a: int, b: int| 0 <= a < b < occ@.len() ==> occ@[a].0 < occ@[b].0,
                    forall|a: int| 0 <= a < pos ==> (#[trigger] occ@[a]).0 < pc,
                decreases occ@.len() - pos,
            {
                pos = pos + 1;
            }
            let ghost pre = occ@;
            if pos < occ.len() && occ[pos].0 == pc {
                let e = occ[pos];
                proof {
                    lemma_pc_count_le(svs.subrange(0, i as int), pc);
                }
                occ[pos] = (pc, e.1 + 1, e.2);
                proof {
                    assert(occ@ == pre.update(pos as int, (pc, (e.1 + 1) as usize, e.2)));
                    assert forall|k: int| 0 <= k < occ@.len() implies {
                        &&& (#[trigger] occ@[k]).2 < i + 1
                        &&& svs[occ@[k].2 as int].pc == occ@[k].0
                        &&& first_idx_of_pc(svs, occ@[k].0, 0) == occ@[k].2
                        &&& occ@[k].1 == pc_count(svs.subrange(0, i + 1), occ@[k].0)
                        &&& occ@[k].1 >= 1
                    } by {
                        lemma_pc_count_step(svs, i as int, occ@[k].0);
                        if k != pos {
                            assert(occ@[k] == pre[k]);
                            assert(occ@[k].0 != pc);
                        }
                    }
                    assert forall|j: int| #![trigger svs[j]] 0 <= j < i + 1 implies exists|k: int|
                        0 <= k < occ@.len() && (#[trigger] occ@[k]).0 == svs[j].pc by {
                        if j < i {
                            let k0 = choose|k0: int|
                                0 <= k0 < pre.len() && (#[trigger] pre[k0]).0 == svs[j].pc;
                            assert(occ@[k0].0 == svs[j].pc);
                        } else {
                            assert(occ@[pos as int].0 == svs[j].pc);
                        }
                    }
                }
            } else {
                // pc unseen so far: its count in the prefix is zero
                proof {
                    assert forall|q: int| 0 <= q < i implies (#[trigger] svs[q]).pc != pc by {
                        if svs[q].pc == pc {
                            let k0 = choose|k0: int|
                                0 <= k0 < pre.len() && (#[trigger] pre[k0]).0 == svs[q].pc;
                            if k0 < pos {
                                assert(pre[k0].0 < pc);
                            } else {
                                assert(pre[pos as int].0 <= pre[k0].0);
                            }
                        }
                    }
                    lemma_pc_count_prefix_zero(svs, i as int, pc);
                    lemma_first_idx_hit(svs, pc, i as int);
                }
                occ.insert(pos, (pc, 1, i));
                proof {
                    assert(occ@ == pre.insert(pos as int, (pc, 1usize, i)));
                    assert forall|a: int, b: int| 0 <= a < b < occ@.len() implies occ@[a].0
                        < occ@[b].0 by {
                        if b < pos {
                        } else if a < pos && b == pos {
                        } else if a < pos {
                            assert(occ@[b] == pre[b - 1]);
                        } else if a == pos {
                            assert(occ@[b] == pre[b - 1]);
                            assert(pre[b - 1].0 >= pre[pos as int].0);
                            assert(pre[pos as int].0 != pc);
                        } else {
                            assert(occ@[a] == pre[a - 1] && occ@[b] == pre[b - 1]);
                        }
                    }
                    assert forall|k: int| 0 <= k < occ@.len() implies {
                        &&& (#[trigger] occ@[k]).2 < i + 1
                        &&& svs[occ@[k].2 as int].pc == occ@[k].0
                        &&& first_idx_of_pc(svs, occ@[k].0, 0) == occ@[k].2
                        &&& occ@[k].1 == pc_count(svs.subrange(0, i + 1), occ@[k].0)
                        &&& occ@[k].1 >= 1
                    } by {
                        lemma_pc_count_step(svs, i as int, occ@[k].0);
                        if k < pos {
                            assert(occ@[k] == pre[k]);
                            assert(occ@[k].0 != pc);
                        } else if k > pos {
                            assert(occ@[k] == pre[k - 1]);
                            assert(occ@[k].0 != pc);
                        }
                    }
                    assert forall|j: int| #![trigger svs[j]] 0 <= j < i + 1 implies exists|k: int|
                        0 <= k < occ@.len() && (#[trigger] occ@[k]).0 == svs[j].pc by {
                        if j < i {
                            let k0 = choose|k0: int|
                                0 <= k0 < pre.len() && (#[trigger] pre[k0]).0 == svs[j].pc;
                            if k0 < pos {
                                assert(occ@[k0].0 == svs[j].pc);
                            } else {
                                assert(occ@[k0 + 1].0 == svs[j].pc);
                            }
                        } else {
                            assert(occ@[pos as int].0 == svs[j].pc);
                        }
                    }
                }
            }
            i = i + 1;
        }
        proof {
            assert(svs.subrange(0, svs.len() as int) =~= svs);
            assert forall|pc: u32| pc_count(svs, pc) == 1 implies exists|t: int|
                0 <= t < occ@.len() && (#[trigger] occ@[t]).0 == pc by {
                lemma_pc_count_pos(svs, pc);
                let j = choose|j: int| 0 <= j < svs.len() && (#[trigger] svs[j]).pc == pc;
                assert(exists|t: int| 0 <= t < occ@.len() && (#[trigger] occ@[t]).0 == svs[j].pc);
            }
        }

        // keep the once-occurring pcs, in ascending pc order
        let mut upairs: Vec<(u32, usize)> = Vec::new();
        let mut k: usize = 0;
        while k < occ.len()
            invariant
                svs == step_views(steps@),
                k <= occ@.len(),
                forall|a: int, b: int| 0 <= a < b < occ@.len() ==> occ@[a].0 < occ@[b].0,
                forall|t: int|
                    0 <= t < occ@.len() ==> (#[trigger] occ@[t]).2 < svs.len() && svs[occ@[t].2 as int].pc
                        == occ@[t].0 && first_idx_of_pc(svs, occ@[t].0, 0) == occ@[t].2
                        && occ@[t].1 == pc_count(svs, occ@[t].0) && occ@[t].1 >= 1,
                forall|pc: u32|
                    pc_count(svs, pc) == 1 ==> exists|t: int|
                        0 <= t < occ@.len() && (#[trigger] occ@[t]).0 == pc,
                forall|a: int, b: int| 0 <= a < b < upairs@.len() ==> upairs@[a].0 < upairs@[b].0,
                forall|t: int|
                    0 <= t < upairs@.len() ==> pc_count(svs, (#[trigger] upairs@[t]).0) == 1
                        && upairs@[t].1 < svs.len() && svs[upairs@[t].1 as int].pc == upairs@[t].0
                        && first_idx_of_pc(svs, upairs@[t].0, 0) == upairs@[t].1,
                forall|t: int|
                    0 <= t < upairs@.len() ==> exists|u: int|
                        0 <= u < k && (#[trigger] upairs@[t]).0 == occ@[u].0,
                forall|u: int|
                    0 <= u < k && (#[trigger] occ@[u]).1 == 1 ==> exists|t: int|
                        0 <= t < upairs@.len() && (#[trigger] upairs@[t]).0 == occ@[u].0,
                upairs@.len() > 0 ==> exists|u: int|
                    0 <= u < k && upairs@.last().0 == (#[trigger] occ@[u]).0,
            decreases occ@.len() - k,
        {
            let e = occ[k];
            if e.1 == 1 {
                let ghost pre = upairs@;
                upairs.push((e.0, e.2));
                proof {
                    assert(upairs@.last() == (e.0, e.2));
                    assert forall|u: int| 0 <= u < k + 1 && (#[trigger] occ@[u]).1 == 1 implies
                        exists|t: int|
                            0 <= t < upairs@.len() && (#[trigger] upairs@[t]).0 == occ@[u].0 by {
                        if u < k {
                            let t0 = choose|t0: int|
                                0 <= t0 < pre.len() && (#[trigger] pre[t0]).0 == occ@[u].0;
                            assert(upairs@[t0].0 == occ@[u].0);
                        } else {
                            assert(upairs@[upairs@.len() - 1].0 == occ@[u].0);
                        }
                    }
                    assert forall|a: int, b: int| 0 <= a < b < upairs@.len() implies upairs@[a].0
                        < upairs@[b].0 by {
                        if b == upairs@.len() - 1 && a < b {
                            if pre.len() > 0 {
                                let u0 = choose|u0: int|
                                    0 <= u0 < k && pre.last().0 == (#[trigger] occ@[u0]).0;
                                assert(upairs@[a].0 <= pre.last().0);
                                assert(occ@[u0].0 < occ@[k as int].0);
                            }
                        }
                    }
                }
            }
            k = k + 1;
        }
        proof {
            assert(is_uniq_pairs(upairs@, svs));
        }

        // drop straight-line continuations of the previously kept entry
        let ghost upv = upairs@;
        let mut singles: Vec<(u32, usize)> = Vec::new();
        if upairs.len() > 0 {
            let head = upairs[0];
            singles.push(head);
            let mut prev_idx: usize = head.1;
            let mut t: usize = 1;
            proof {
                assert(singles@ =~= seq![upv[0]]);
            }
            while t < upairs.len()
                invariant
                    svs == step_views(steps@),
                    upv == upairs@,
                    is_uniq_pairs(upv, svs),
                    upv.len() > 0,
                    1 <= t <= upv.len(),
                    prev_idx < svs.len(),
                    singles@.len() >= 1,
                    kept_pairs(upv, svs) == singles@ + kept_from(upv, svs, t as int, prev_idx as int),
                    forall|a: int, b: int| 0 <= a < b < singles@.len() ==> singles@[a].0
                        < singles@[b].0,
                    forall|x: int|
                        0 <= x < singles@.len() ==> pc_count(svs, (#[trigger] singles@[x]).0) == 1
                            && singles@[x].1 < svs.len() && svs[singles@[x].1 as int].pc
                            == singles@[x].0 && first_idx_of_pc(svs, singles@[x].0, 0)
                            == singles@[x].1,
                    exists|u: int| 0 <= u < t && singles@.last().0 == (#[trigger] upv[u]).0,
                decreases upv.len() - t,
            {
                let e = upairs[t];
                if e.0 != self_step_pc_next(&steps, prev_idx) {
                    singles.push(e);
                    prev_idx = e.1;
                    proof {
                        let u0 = choose|u0: int|
                            0 <= u0 < t && singles@.drop_last().last().0 == (#[trigger] upv[u0]).0;
                        assert(upv[u0].0 < upv[t as int].0);
                    }
                }
                t = t + 1;
            }
            proof {
                assert(kept_from(upv, svs, upv.len() as int, prev_idx as int)
                    =~= Seq::<(u32, usize)>::empty());
                assert(singles@ + Seq::<(u32, usize)>::empty() =~= singles@);
            }
        }
        let d = Dump { singles, steps };
        proof {
            assert(d.singles@ == kept_pairs(upv, svs));
        }
        d
    }
}

fn self_step_pc_next(steps: &Vec<CpuStep>, idx: usize) -> (r: u32)
    requires
        idx < steps@.len(),
    ensures
        r == step_views(steps@)[idx as int].pc_next,
{
    proof {
        assert(step_views(steps@)[idx as int] == steps@[idx as int]@);
    }
    steps[idx].pc_next
}

proof fn lemma_pc_count_prefix_zero(svs: Seq<CpuStepV>, i: int, pc: u32)
    requires
        0 <= i <= svs.len(),
        forall|q: int| 0 <= q < i ==> (#[trigger] svs[q]).pc != pc,
    ensures
        pc_count(svs.subrange(0, i), pc) == 0,
    decreases i,
{
    if i > 0 {
        lemma_pc_count_prefix_zero(svs, i - 1, pc);
        lemma_pc_count_step(svs, i - 1, pc);
    }
}

proof fn lemma_first_idx_hit(svs: Seq<CpuStepV>, pc: u32, i: int)
    requires
        0 <= i < svs.len(),
        svs[i].pc == pc,
        forall|q: int| 0 <= q < i ==> (#[trigger] svs[q]).pc != pc,
    ensures
        first_idx_of_pc(svs, pc, 0) == i,
    decreases i,
{
    lemma_first_idx_skip(svs, pc, 0, i);
}

proof fn lemma_first_idx_skip(svs: Seq<CpuStepV>, pc: u32, from: int, i: int)
    requires
        0 <= from <= i < svs.len(),
        svs[i].pc == pc,
        forall|q: int| from <= q < i ==> (#[trigger] svs[q]).pc != pc,
    ensures
        first_idx_of_pc(svs, pc, from) == i,
    decreases i - from,
{
    if from < i {
        lemma_first_idx_skip(svs, pc, from + 1, i);
    }
}

/// The shape a stored index must have to be reloaded: well-formed
/// records, strictly ascending entry pcs, positions inside the trace.
pub open spec fn index_parts_ok(steps: Seq<CpuStep>, singles: Seq<(u32, usize)>) -> bool {
    &&& steps.len() < 0x4000_0000_0000_0000
    &&& forall|i: int| 0 <= i < steps.len() ==> (#[trigger] steps[i])@.wf()
    &&& forall|i: int, j: int| 0 <= i < j < singles.len() ==> singles[i].0 < singles[j].0
    &&& forall|k: int| 0 <= k < singles.len() ==> (#[trigger] singles[k]).1 < steps.len()
}

impl Dump {
    /// First trace position of `pc`; the anchor of every pc-addressed
    /// query.  Fails exactly when the pc never occurs.
    pub fn first_index_of_pc(&self, pc: u32) -> (r: Result<usize, DumpError>)
        requires
            self.wf(),
        ensures
            match r {
                Ok(i) => first_idx_of_pc(self.svs(), pc, 0) == i && i < self.svs().len()
                    && self.svs()[i as int].pc == pc,
                Err(e) => e == DumpError::PcNotFound && first_idx_of_pc(self.svs(), pc, 0) == -1,
            },
    {
        proof {
            lemma_first_idx_range(self.svs(), pc, 0);
        }
        let mut i: usize = 0;
        while i < self.steps.len()
            invariant
                self.wf(),
                i <= self.svs().len(),
                forall|j: int| 0 <= j < i ==> (#[trigger] self.svs()[j]).pc != pc,
            decreases self.svs().len() - i,
        {
            proof {
                assert(self.svs()[i as int] == self.steps@[i as int]@);
            }
            if self.steps[i].pc == pc {
                proof {
                    lemma_first_idx_skip(self.svs(), pc, 0, i as int);
                }
                return Ok(i);
            }
            i = i + 1;
        }
        Err(DumpError::PcNotFound)
    }

    /// All entry pcs of the unique-entry index, each lowered by `offset`
    /// (wrapping at the address-space boundary), in ascending pc order.
    pub fn starting_pcs(&self, offset: u32) -> (r: Vec<u32>)
        requires
            self.wf(),
        ensures
            r@.len() == self.singles@.len(),
            forall|k: int|
                0 <= k < r@.len() ==> r@[k] == wsub32((#[trigger] self.singles@[k]).0, offset),
    {
        let mut out: Vec<u32> = Vec::new();
        let mut k: usize = 0;
        while k < self.singles.len()
            invariant
                self.wf(),
                k <= self.singles@.len(),
                out@.len() == k,
                forall|j: int|
                    0 <= j < k ==> out@[j] == wsub32((#[trigger] self.singles@[j]).0, offset),
            decreases self.singles@.len() - k,
        {
            out.push(wsub32_exec(self.singles[k].0, offset));
            k = k + 1;
        }
        out
    }

    /// Reassemble an index from its stored parts, as a compiled cache
    /// reload does; parts that violate the index shape are rejected.
    pub fn from_parts(steps: Vec<CpuStep>, singles: Vec<(u32, usize)>) -> (r: Option<Dump>)
        ensures
            r is Some <==> index_parts_ok(steps@, singles@),
            match r {
                Some(d) => d.wf() && d.steps@ == steps@ && d.singles@ == singles@,
                None => true,
            },
    {
        if steps.len() as u64 >= 0x4000_0000_0000_0000u64 {
            return None;
        }
        let mut i: usize = 0;
        while i < steps.len()
            invariant
                i <= steps@.len(),
                forall|j: int| 0 <= j < i ==> (#[trigger] steps@[j])@.wf(),
            decreases steps@.len() - i,
        {
            let st = &steps[i];
            if !(st.data.len() == 8 && st.address.len() == 8 && st.pc_note.len() == 24
                && st.note.len() == 64) {
                proof {
                    assert(!(#[trigger] steps@[i as int])@.wf());
                }
                return None;
            }
            i = i + 1;
        }
        let mut k: usize = 0;
        while k < singles.len()
            invariant
                steps@.len() < 0x4000_0000_0000_0000,
                forall|j: int| 0 <= j < steps@.len() ==> (#[trigger] steps@[j])@.wf(),
                k <= singles@.len(),
                forall|a: int, b: int| 0 <= a < b < k ==> singles@[a].0 < singles@[b].0,
                forall|j: int| 0 <= j < k ==> (#[trigger] singles@[j]).1 < steps@.len(),
            decreases singles@.len() - k,
        {
            let e = singles[k];
            if e.1 >= steps.len() {
                proof {
                    assert((#[trigger] singles@[k as int]).1 >= steps@.len());
                }
                return None;
            }
            if k > 0 && singles[k - 1].0 >= e.0 {
                proof {
                    assert(singles@[k - 1].0 >= singles@[k as int].0);
                }
                return None;
            }
            proof {
                assert forall|a: int, b: int| 0 <= a < b < k + 1 implies singles@[a].0
                    < singles@[b].0 by {
                    if b == k {
                        if a < k - 1 {
                            assert(singles@[a].0 < singles@[k - 1].0);
                        }
                    }
                }
            }
            k = k + 1;
        }
        Some(Dump { singles, steps })
    }
}

} // verus!

verus! {

// --- the bounded register-change search ---------------------------------

/// One observed register transition: at trace position `at`, data
/// register `reg` changed from `old_val` to `new_val`.
#[derive(Clone, Copy, Debug, PartialEq, Eq, Structural)]
pub struct RegChange {
    pub at: usize,
    pub reg: usize,
    pub old_val: u32,
    pub new_val: u32,
}

/// Byte-size classes map to value masks; any size other than one or two
/// bytes searches the full word.
pub open spec fn mask_of_size(size: u8) -> u32 {
    if size == 1 {
        0xFFu32
    } else if size == 2 {
        0xFFFFu32
    } else {
        0xFFFF_FFFFu32
    }
}

/// The transitions to the masked target value at step `i`, low register
/// first, considering the first `r` data registers.
pub open spec fn changes_upto(svs: Seq<CpuStepV>, i: int, val: u32, mask: u32, r: int) -> Seq<
    RegChange,
>
    decreases r,
{
    if r <= 0 {
        Seq::empty()
    } else {
        changes_upto(svs, i, val, mask, r - 1) + if reg_changed_to(
            svs[i],
            svs[i - 1],
            val,
            mask,
            r - 1,
        ) {
            seq![
                RegChange {
                    at: i as usize,
                    reg: (r - 1) as usize,
                    old_val: svs[i - 1].data[r - 1],
                    new_val: svs[i].data[r - 1],
                },
            ]
        } else {
            Seq::empty()
        }
    }
}

/// All transitions recorded for step `i`.
pub open spec fn changes_list(svs: Seq<CpuStepV>, i: int, val: u32, mask: u32) -> Seq<RegChange> {
    changes_upto(svs, i, val, mask, 8)
}

/// The findings of one bounded forward walk: starting behind step `i`
/// with the given call depth and remaining step budget, each step that
/// shows a transition files its change list under its pc, later steps
/// overwriting earlier ones; the walk stops when the depth goes
/// negative or the budget runs out.
pub open spec fn walk_map(
    svs: Seq<CpuStepV>,
    i: int,
    depth: int,
    fuel: nat,
    val: u32,
    mask: u32,
) -> Map<u32, Seq<RegChange>>
    decreases fuel,
{
    if fuel == 0 || i < 0 || i + 1 >= svs.len() {
        Map::empty()
    } else {
        let ch = changes_list(svs, i + 1, val, mask);
        let d2 = depth + spec_depth_mod(svs[i + 1].note);
        let here: Map<u32, Seq<RegChange>> = if ch.len() > 0 {
            Map::empty().insert(svs[i + 1].pc, ch)
        } else {
            Map::empty()
        };
        let rest: Map<u32, Seq<RegChange>> = if d2 < 0 || fuel == 1 {
            Map::empty()
        } else {
            walk_map(svs, i + 1, d2, (fuel - 1) as nat, val, mask)
        };
        here.union_prefer_right(rest)
    }
}

/// The walks of every index seed merged in ascending pc order, later
/// seeds overwriting earlier ones at a shared pc.
pub open spec fn merged_walks(
    singles: Seq<(u32, usize)>,
    svs: Seq<CpuStepV>,
    k: int,
    val: u32,
    mask: u32,
) -> Map<u32, Seq<RegChange>>
    decreases k,
{
    if k <= 0 {
        Map::empty()
    } else {
        merged_walks(singles, svs, k - 1, val, mask).union_prefer_right(
            walk_map(svs, singles[k - 1].1 as int, 0, 10000, val, mask),
        )
    }
}

/// Narrowing by an earlier search: keep the pcs present in both, the
/// earlier description preceding the new one.
pub open spec fn narrowed(
    found: Map<u32, Seq<RegChange>>,
    prev: Map<u32, Seq<RegChange>>,
) -> Map<u32, Seq<RegChange>> {
    Map::new(
        |pc: u32| prev.contains_key(pc) && found.contains_key(pc),
        |pc: u32| prev[pc] + found[pc],
    )
}

/// Narrowing by an earlier result can only shrink the reported pc set:
/// every pc a narrowed search reports, the plain search reports too.
pub proof fn lemma_search_previous_narrows(
    found: Map<u32, Seq<RegChange>>,
    prev: Map<u32, Seq<RegChange>>,
)
    ensures
        forall|pc: u32| #[trigger]
            narrowed(found, prev).contains_key(pc) ==> found.contains_key(pc),
{
}

// --- the pc-sorted change map -------------------------------------------

/// The map an entry list stands for; later entries would win, though a
/// well-formed list has strictly ascending keys.
pub open spec fn entries_map(es: Seq<(u32, Vec<RegChange>)>, k: int) -> Map<u32, Seq<RegChange>>
    decreases k,
{
    if k <= 0 {
        Map::empty()
    } else {
        entries_map(es, k - 1).insert(es[k - 1].0, es[k - 1].1@)
    }
}

/// Register-change findings as a pc-sorted map from pc to the list of
/// transitions observed at that pc.
pub struct ChangeMap {
    pub entries: Vec<(u32, Vec<RegChange>)>,
}

impl ChangeMap {
    pub open spec fn as_map(&self) -> Map<u32, Seq<RegChange>> {
        entries_map(self.entries@, self.entries@.len() as int)
    }

    pub open spec fn wf(&self) -> bool {
        forall|i: int, j: int|
            0 <= i < j < self.entries@.len() ==> self.entries@[i].0 < self.entries@[j].0
    }

    pub fn new() -> (r: ChangeMap)
        ensures
            r.wf(),
            r.as_map() == Map::<u32, Seq<RegChange>>::empty(),
    {
        ChangeMap { entries: Vec::new() }
    }

    /// Number of pcs with findings.
    pub fn len(&self) -> (r: usize)
        ensures
            r == self.entries@.len(),
    {
        self.entries.len()
    }
}

impl ChangeMap {
    /// File `changes` under `pc`, replacing an existing entry.
    pub fn insert_replace(&mut self, pc: u32, changes: Vec<RegChange>)
        requires
            old(self).wf(),
        ensures
            final(self).wf(),
            final(self).as_map() == old(self).as_map().insert(pc, changes@),
    {
        let ghost pre = self.entries@;
        let ghost chv = changes@;
        let mut idx: usize = 0;
        while idx < self.entries.len() && self.entries[idx].0 < pc
            invariant
                idx <= self.entries@.len(),
                self.entries@ == pre,
                forall|j: int| 0 <= j < idx ==> (#[trigger] pre[j]).0 < pc,
            decreases self.entries@.len() - idx,
        {
            idx = idx + 1;
        }
        if idx < self.entries.len() && self.entries[idx].0 == pc {
            self.entries[idx] = (pc, changes);
            proof {
                assert(self.entries@ == pre.update(idx as int, (pc, changes)));
                lemma_entries_update(pre, self.entries@, idx as int, pc, chv);
                assert(self.as_map() =~= entries_map(pre, pre.len() as int).insert(pc, chv));
            }
        } else {
            self.entries.insert(idx, (pc, changes));
            proof {
                assert(self.entries@ == pre.insert(idx as int, (pc, changes)));
                assert forall|i: int, j: int|
                    0 <= i < j < self.entries@.len() implies self.entries@[i].0
                    < self.entries@[j].0 by {
                    if j < idx {
                    } else if i < idx && j == idx {
                    } else if i < idx {
                        assert(self.entries@[j] == pre[j - 1]);
                    } else if i == idx {
                        assert(self.entries@[j] == pre[j - 1]);
                        assert(pre[j - 1].0 >= pre[idx as int].0);
                        assert(pre[idx as int].0 != pc);
                    } else {
                        assert(self.entries@[i] == pre[i - 1] && self.entries@[j] == pre[j - 1]);
                    }
                }
                lemma_entries_insert(pre, self.entries@, idx as int, pc, chv);
                assert(self.as_map() =~= entries_map(pre, pre.len() as int).insert(pc, chv));
            }
        }
    }
}

proof fn lemma_entries_update(
    pre: Seq<(u32, Vec<RegChange>)>,
    post: Seq<(u32, Vec<RegChange>)>,
    idx: int,
    pc: u32,
    chv: Seq<RegChange>,
)
    requires
        0 <= idx < pre.len(),
        forall|i: int, j: int| 0 <= i < j < pre.len() ==> pre[i].0 < pre[j].0,
        pre[idx].0 == pc,
        post.len() == pre.len(),
        post[idx].0 == pc,
        post[idx].1@ == chv,
        forall|t: int| 0 <= t < pre.len() && t != idx ==> post[t] == pre[t],
    ensures
        entries_map(post, post.len() as int) == entries_map(pre, pre.len() as int).insert(pc, chv),
{
    assert forall|x: u32|
        entries_map(post, post.len() as int).contains_key(x) <==> entries_map(
            pre,
            pre.len() as int,
        ).insert(pc, chv).contains_key(x) by {
        lemma_entries_map_prefix_weak(post, post.len() as int, x);
        lemma_entries_map_prefix_weak(pre, pre.len() as int, x);
        if entries_map(post, post.len() as int).contains_key(x) {
            let t = choose|t: int| 0 <= t < post.len() && (#[trigger] post[t]).0 == x;
            if t != idx {
                assert(pre[t].0 == x);
            }
        }
        if x != pc && entries_map(pre, pre.len() as int).contains_key(x) {
            let t = choose|t: int| 0 <= t < pre.len() && (#[trigger] pre[t]).0 == x;
            assert(post[t].0 == x);
        }
        if x == pc {
            assert(post[idx].0 == x);
        }
    }
    assert forall|x: u32| #[trigger]
        entries_map(post, post.len() as int).contains_key(x) implies entries_map(
        post,
        post.len() as int,
    )[x] == entries_map(pre, pre.len() as int).insert(pc, chv)[x] by {
        lemma_entries_map_prefix_weak(post, post.len() as int, x);
        let t = choose|t: int| 0 <= t < post.len() && (#[trigger] post[t]).0 == x;
        lemma_sorted_entries_value_at(post, t, x);
        if x == pc {
            lemma_sorted_entries_value_at(post, idx, x);
        } else {
            assert(pre[t].0 == x);
            lemma_sorted_entries_value_at(pre, t, x);
        }
    }
    assert(entries_map(post, post.len() as int) =~= entries_map(pre, pre.len() as int).insert(
        pc,
        chv,
    ));
}

/// Membership in an entry map, without sortedness.
proof fn lemma_entries_map_prefix_weak(es: Seq<(u32, Vec<RegChange>)>, k: int, pc: u32)
    requires
        k <= es.len(),
    ensures
        entries_map(es, k).contains_key(pc) <==> exists|t: int|
            0 <= t < k && (#[trigger] es[t]).0 == pc,
    decreases k,
{
    if k > 0 {
        lemma_entries_map_prefix_weak(es, k - 1, pc);
        if es[k - 1].0 == pc {
            assert(exists|t: int| 0 <= t < k && (#[trigger] es[t]).0 == pc);
        }
    }
}

proof fn lemma_sorted_entries_value_at(es: Seq<(u32, Vec<RegChange>)>, t: int, pc: u32)
    requires
        forall|i: int, j: int| 0 <= i < j < es.len() ==> es[i].0 < es[j].0,
        0 <= t < es.len(),
        es[t].0 == pc,
    ensures
        entries_map(es, es.len() as int)[pc] == es[t].1@,
{
    lemma_sorted_entries_value_rec(es, es.len() as int, t, pc);
}

proof fn lemma_sorted_entries_value_rec(es: Seq<(u32, Vec<RegChange>)>, k: int, t: int, pc: u32)
    requires
        forall|i: int, j: int| 0 <= i < j < es.len() ==> es[i].0 < es[j].0,
        0 <= t < k <= es.len(),
        es[t].0 == pc,
    ensures
        entries_map(es, k)[pc] == es[t].1@,
    decreases k,
{
    if t == k - 1 {
    } else {
        lemma_sorted_entries_value_rec(es, k - 1, t, pc);
        assert(es[k - 1].0 != pc);
    }
}

proof fn lemma_entries_insert(
    pre: Seq<(u32, Vec<RegChange>)>,
    post: Seq<(u32, Vec<RegChange>)>,
    idx: int,
    pc: u32,
    chv: Seq<RegChange>,
)
    requires
        0 <= idx <= pre.len(),
        forall|i: int, j: int| 0 <= i < j < pre.len() ==> pre[i].0 < pre[j].0,
        forall|t: int| 0 <= t < pre.len() ==> (#[trigger] pre[t]).0 != pc,
        forall|i: int, j: int| 0 <= i < j < post.len() ==> post[i].0 < post[j].0,
        post.len() == pre.len() + 1,
        post[idx].0 == pc,
        post[idx].1@ == chv,
        forall|t: int| 0 <= t < idx ==> post[t] == pre[t],
        forall|t: int| idx < t < post.len() ==> post[t] == pre[t - 1],
    ensures
        entries_map(post, post.len() as int) == entries_map(pre, pre.len() as int).insert(pc, chv),
{
    assert forall|x: u32|
        entries_map(post, post.len() as int).contains_key(x) <==> entries_map(
            pre,
            pre.len() as int,
        ).insert(pc, chv).contains_key(x) by {
        lemma_entries_map_prefix_weak(post, post.len() as int, x);
        lemma_entries_map_prefix_weak(pre, pre.len() as int, x);
        if entries_map(post, post.len() as int).contains_key(x) {
            let t = choose|t: int| 0 <= t < post.len() && (#[trigger] post[t]).0 == x;
            if t < idx {
                assert(pre[t].0 == x);
            } else if t > idx {
                assert(pre[t - 1].0 == x);
            }
        }
        if x != pc && entries_map(pre, pre.len() as int).contains_key(x) {
            let t = choose|t: int| 0 <= t < pre.len() && (#[trigger] pre[t]).0 == x;
            if t < idx {
                assert(post[t].0 == x);
            } else {
                assert(post[t + 1].0 == x);
            }
        }
        if x == pc {
            assert(post[idx].0 == x);
        }
    }
    assert forall|x: u32| #[trigger]
        entries_map(post, post.len() as int).contains_key(x) implies entries_map(
        post,
        post.len() as int,
    )[x] == entries_map(pre, pre.len() as int).insert(pc, chv)[x] by {
        lemma_entries_map_prefix_weak(post, post.len() as int, x);
        let t = choose|t: int| 0 <= t < post.len() && (#[trigger] post[t]).0 == x;
        lemma_sorted_entries_value_at(post, t, x);
        if x != pc {
            if t < idx {
                assert(pre[t].0 == x);
                lemma_sorted_entries_value_at(pre, t, x);
            } else {
                assert(pre[t - 1].0 == x);
                lemma_sorted_entries_value_at(pre, t - 1, x);
            }
        }
    }
    assert(entries_map(post, post.len() as int) =~= entries_map(pre, pre.len() as int).insert(
        pc,
        chv,
    ));
}

} // verus!

verus! {

proof fn lemma_upr_assoc(
    a: Map<u32, Seq<RegChange>>,
    b: Map<u32, Seq<RegChange>>,
    c: Map<u32, Seq<RegChange>>,
)
    ensures
        a.union_prefer_right(b).union_prefer_right(c) == a.union_prefer_right(
            b.union_prefer_right(c),
        ),
{
    assert(a.union_prefer_right(b).union_prefer_right(c) =~= a.union_prefer_right(
        b.union_prefer_right(c),
    ));
}

proof fn lemma_upr_single(
    a: Map<u32, Seq<RegChange>>,
    pc: u32,
    ch: Seq<RegChange>,
)
    ensures
        a.union_prefer_right(Map::empty().insert(pc, ch)) == a.insert(pc, ch),
        a.union_prefer_right(Map::<u32, Seq<RegChange>>::empty()) == a,
{
    assert(a.union_prefer_right(Map::empty().insert(pc, ch)) =~= a.insert(pc, ch));
    assert(a.union_prefer_right(Map::<u32, Seq<RegChange>>::empty()) =~= a);
}

impl Dump {
    /// Transitions to the masked value at step `i`, compared with its
    /// predecessor.
    fn changes_at(&self, i: usize, val: u32, mask: u32) -> (r: Vec<RegChange>)
        requires
            self.wf(),
            1 <= i < self.steps@.len(),
        ensures
            r@ == changes_list(self.svs(), i as int, val, mask),
    {
        let mut out: Vec<RegChange> = Vec::new();
        let cur = &self.steps[i];
        let prev = &self.steps[i - 1];
        proof {
            assert(self.svs()[i as int] == self.steps@[i as int]@);
            assert(self.svs()[i - 1] == self.steps@[i - 1]@);
            assert(self.svs()[i as int].wf() && self.svs()[i - 1].wf());
        }
        let mut r: usize = 0;
        while r < 8
            invariant
                self.wf(),
                1 <= i < self.steps@.len(),
                cur@ == self.svs()[i as int],
                prev@ == self.svs()[i - 1],
                cur@.wf(),
                prev@.wf(),
                r <= 8,
                out@ == changes_upto(self.svs(), i as int, val, mask, r as int),
            decreases 8 - r,
        {
            if cur.data[r] & mask == val && prev.data[r] & mask != val {
                out.push(
                    RegChange {
                        at: i,
                        reg: r,
                        old_val: prev.data[r],
                        new_val: cur.data[r],
                    },
                );
                proof {
                    assert(out@ =~= changes_upto(self.svs(), i as int, val, mask, r + 1));
                }
            } else {
                proof {
                    assert(out@ =~= changes_upto(self.svs(), i as int, val, mask, r + 1));
                }
            }
            r = r + 1;
        }
        out
    }

    /// One bounded forward walk from index seed position `start`.
    fn search_for_register_change_from(&self, start: usize, val: u32, mask: u32) -> (r: ChangeMap)
        requires
            self.wf(),
        ensures
            r.wf(),
            r.as_map() == walk_map(self.svs(), start as int, 0, 10000, val, mask),
    {
        let ghost svs = self.svs();
        let mut found = ChangeMap::new();
        let mut i: usize = start;
        let mut depth: i64 = 0;
        let mut fuel: u32 = 10000;
        proof {
            lemma_upr_single(found.as_map(), 0, Seq::empty());
        }
        loop
            invariant
                self.wf(),
                svs == self.svs(),
                found.wf(),
                start <= i,
                0 <= depth,
                depth + fuel <= 10000,
                fuel <= 10000,
                walk_map(svs, start as int, 0, 10000, val, mask) == found.as_map(
                ).union_prefer_right(walk_map(svs, i as int, depth as int, fuel as nat, val, mask)),
            decreases fuel,
        {
            if fuel == 0 || i >= self.steps.len() || i + 1 >= self.steps.len() {
                proof {
                    lemma_upr_single(found.as_map(), 0, Seq::empty());
                    assert(walk_map(svs, i as int, depth as int, fuel as nat, val, mask)
                        =~= Map::<u32, Seq<RegChange>>::empty());
                }
                return found;
            }
            let ghost fuel0 = fuel as nat;
            let ghost depth0 = depth as int;
            let ghost i0 = i as int;
            let ch = self.changes_at(i + 1, val, mask);
            let dm = self.steps[i + 1].depth_mod();
            proof {
                assert(svs[i0 + 1] == self.steps@[i0 + 1]@);
            }
            let d2 = depth + dm;
            let ghost here: Map<u32, Seq<RegChange>> = if ch@.len() > 0 {
                Map::empty().insert(svs[i0 + 1].pc, ch@)
            } else {
                Map::empty()
            };
            let ghost rest: Map<u32, Seq<RegChange>> = if d2 < 0 || fuel0 == 1 {
                Map::empty()
            } else {
                walk_map(svs, i0 + 1, d2 as int, (fuel0 - 1) as nat, val, mask)
            };
            proof {
                assert(walk_map(svs, i0, depth0, fuel0, val, mask) == here.union_prefer_right(
                    rest,
                ));
                lemma_upr_assoc(found.as_map(), here, rest);
            }
            let ghost pre_map = found.as_map();
            if ch.len() > 0 {
                let pc = self.steps[i + 1].pc;
                found.insert_replace(pc, ch);
                proof {
                    lemma_upr_single(pre_map, pc, here[pc]);
                    assert(found.as_map() == pre_map.union_prefer_right(here));
                }
            } else {
                proof {
                    lemma_upr_single(pre_map, 0, Seq::empty());
                    assert(found.as_map() == pre_map.union_prefer_right(here));
                }
            }
            i = i + 1;
            depth = d2;
            fuel = fuel - 1;
            if depth < 0 || fuel == 0 {
                proof {
                    lemma_upr_single(found.as_map(), 0, Seq::empty());
                    assert(rest =~= Map::<u32, Seq<RegChange>>::empty());
                }
                return found;
            }
        }
    }

    /// Search every index seed for a data register reaching the target
    /// value, merging all walks into one pc-sorted result; an earlier
    /// result narrows the outcome to pcs present in both, with the
    /// descriptions concatenated.
    pub fn search_for_register_change(
        &self,
        val: u32,
        size: u8,
        previous: Option<ChangeMap>,
    ) -> (r: ChangeMap)
        requires
            self.wf(),
            match previous {
                Some(p) => p.wf(),
                None => true,
            },
        ensures
            r.wf(),
            ({
                let merged = merged_walks(
                    self.singles@,
                    self.svs(),
                    self.singles@.len() as int,
                    val,
                    mask_of_size(size),
                );
                match previous {
                    None => r.as_map() == merged,
                    Some(p) => r.as_map() == narrowed(merged, p.as_map()),
                }
            }),
    {
        let mask: u32 = if size == 1 {
            0x0000_00FF
        } else if size == 2 {
            0x0000_FFFF
        } else {
            0xFFFF_FFFF
        };
        let ghost svs = self.svs();
        let mut found = ChangeMap::new();
        let mut k: usize = 0;
        while k < self.singles.len()
            invariant
                self.wf(),
                svs == self.svs(),
                mask == mask_of_size(size),
                found.wf(),
                k <= self.singles@.len(),
                found.as_map() == merged_walks(self.singles@, svs, k as int, val, mask),
            decreases self.singles@.len() - k,
        {
            let seed = self.singles[k].1;
            let walk = self.search_for_register_change_from(seed, val, mask);
            let ghost pre_map = found.as_map();
            let ghost wmap = walk.as_map();
            // merge: the newer walk overwrites at a shared pc
            let mut t: usize = 0;
            let walk_entries = walk.entries;
            while t < walk_entries.len()
                invariant
                    found.wf(),
                    t <= walk_entries@.len(),
                    forall|a: int, b: int|
                        0 <= a < b < walk_entries@.len() ==> walk_entries@[a].0
                            < walk_entries@[b].0,
                    wmap == entries_map(walk_entries@, walk_entries@.len() as int),
                    found.as_map() == pre_map.union_prefer_right(
                        entries_map(walk_entries@, t as int),
                    ),
                decreases walk_entries@.len() - t,
            {
                let ghost cur_map = found.as_map();
                let e = &walk_entries[t];
                let mut ch: Vec<RegChange> = Vec::new();
                ch.extend_from_slice(e.1.as_slice());
                proof {
                    assert(ch@ =~= walk_entries@[t as int].1@);
                }
                found.insert_replace(e.0, ch);
                proof {
                    assert(entries_map(walk_entries@, t + 1) == entries_map(
                        walk_entries@,
                        t as int,
                    ).insert(walk_entries@[t as int].0, walk_entries@[t as int].1@));
                    assert(found.as_map() =~= pre_map.union_prefer_right(
                        entries_map(walk_entries@, t + 1),
                    ));
                }
                t = t + 1;
            }
            proof {
                assert(found.as_map() == pre_map.union_prefer_right(wmap));
            }
            k = k + 1;
        }
        match previous {
            None => found,
            Some(p) => {
                let ghost merged = found.as_map();
                let mut out = ChangeMap::new();
                let prev_entries = p.entries;
                let mut t: usize = 0;
                while t < prev_entries.len()
                    invariant
                        out.wf(),
                        found.wf(),
                        t <= prev_entries@.len(),
                        merged == found.as_map(),
                        forall|a: int, b: int|
                            0 <= a < b < prev_entries@.len() ==> prev_entries@[a].0
                                < prev_entries@[b].0,
                        out.as_map() =~= Map::new(
                            |pc: u32|
                                entries_map(prev_entries@, t as int).contains_key(pc)
                                    && merged.contains_key(pc),
                            |pc: u32| entries_map(prev_entries@, t as int)[pc] + merged[pc],
                        ),
                    decreases prev_entries@.len() - t,
                {
                    let ghost pre_out = out.as_map();
                    let e = &prev_entries[t];
                    let pc = e.0;
                    match found.get(pc) {
                        Some(fv) => {
                            let mut ch: Vec<RegChange> = Vec::new();
                            ch.extend_from_slice(e.1.as_slice());
                            ch.extend_from_slice(fv.as_slice());
                            proof {
                                assert(ch@ =~= prev_entries@[t as int].1@ + merged[pc]);
                            }
                            out.insert_replace(pc, ch);
                        },
                        None => {},
                    }
                    proof {
                        lemma_entries_map_prefix_weak(prev_entries@, t as int, pc);
                        assert(entries_map(prev_entries@, t + 1) == entries_map(
                            prev_entries@,
                            t as int,
                        ).insert(pc, prev_entries@[t as int].1@));
                        assert forall|x: u32| 0 <= 1 implies (entries_map(
                            prev_entries@,
                            t + 1,
                        ).contains_key(x) <==> entries_map(prev_entries@, t as int).contains_key(x)
                            || x == pc) by {}
                        lemma_sorted_prefix_value(prev_entries@, t as int, pc);
                        assert(out.as_map() =~= Map::new(
                            |x: u32|
                                entries_map(prev_entries@, t + 1).contains_key(x)
                                    && merged.contains_key(x),
                            |x: u32| entries_map(prev_entries@, t + 1)[x] + merged[x],
                        ));
                    }
                    t = t + 1;
                }
                proof {
                    assert(entries_map(prev_entries@, prev_entries@.len() as int) == p.as_map());
                    assert(out.as_map() =~= narrowed(merged, p.as_map()));
                }
                out
            },
        }
    }

    /// The findings recorded for one pc.
    pub fn get_changes<'a>(m: &'a ChangeMap, pc: u32) -> (r: Option<&'a Vec<RegChange>>)
        requires
            m.wf(),
        ensures
            match r {
                Some(v) => m.as_map().contains_key(pc) && v@ == m.as_map()[pc],
                None => !m.as_map().contains_key(pc),
            },
    {
        ChangeMap::get(m, pc)
    }
}

/// `entries_map` over a prefix agrees with the full sorted map on the
/// prefix's keys.
proof fn lemma_sorted_prefix_value(es: Seq<(u32, Vec<RegChange>)>, t: int, pc: u32)
    requires
        forall|i: int, j: int| 0 <= i < j < es.len() ==> es[i].0 < es[j].0,
        0 <= t < es.len(),
        es[t].0 == pc,
    ensures
        entries_map(es, t + 1)[pc] == es[t].1@,
{
}

impl ChangeMap {
    /// Look one pc up.
    pub fn get<'a>(&'a self, pc: u32) -> (r: Option<&'a Vec<RegChange>>)
        requires
            self.wf(),
        ensures
            match r {
                Some(v) => self.as_map().contains_key(pc) && v@ == self.as_map()[pc],
                None => !self.as_map().contains_key(pc),
            },
    {
        proof {
            lemma_entries_map_prefix_weak(self.entries@, self.entries@.len() as int, pc);
        }
        let mut i: usize = 0;
        while i < self.entries.len()
            invariant
                self.wf(),
                i <= self.entries@.len(),
                forall|j: int| 0 <= j < i ==> (#[trigger] self.entries@[j]).0 != pc,
            decreases self.entries@.len() - i,
        {
            if self.entries[i].0 == pc {
                proof {
                    assert((#[trigger] self.entries@[i as int]).0 == pc);
                    lemma_entries_map_prefix_weak(self.entries@, self.entries@.len() as int, pc);
                    lemma_sorted_entries_value_at(self.entries@, i as int, pc);
                }
                return Some(&self.entries[i].1);
            }
            i = i + 1;
        }
        None
    }
}

} // verus!

verus! {

// --- memory-capture command generation ----------------------------------

/// One debugger memory-capture command: dump `lines` sixteen-byte rows
/// starting at the 128-byte-aligned `start`.
#[derive(Clone, Copy, Debug, PartialEq, Eq, Structural)]
pub struct MemCmd {
    pub start: u32,
    pub lines: u32,
}

/// The command covering the address range `[first, last]`, rounded
/// outward to 128-byte alignment.
pub open spec fn spec_cmd(first: u32, last: u32) -> MemCmd {
    MemCmd {
        start: first & 0xFFFF_FF80u32,
        lines: ((((((last as u64) + 0x100) as u64) & 0xFFFF_FFFF_FFFF_FF80u64) - ((first
            & 0xFFFF_FF80u32) as u64)) / 16) as u32,
    }
}

/// Coalescing a sorted address list into ranges: a gap of more than 128
/// bytes starts a new range.
pub open spec fn coalesce_from(addrs: Seq<u32>, k: int, first: u32, last: u32) -> Seq<(u32, u32)>
    decreases addrs.len() - k,
{
    if k < 0 || k >= addrs.len() {
        seq![(first, last)]
    } else if addrs[k] > last + 128 {
        seq![(first, last)] + coalesce_from(addrs, k + 1, addrs[k], addrs[k])
    } else {
        coalesce_from(addrs, k + 1, first, addrs[k])
    }
}

pub open spec fn coalesce_ranges(addrs: Seq<u32>) -> Seq<(u32, u32)> {
    if addrs.len() == 0 {
        Seq::empty()
    } else {
        coalesce_from(addrs, 1, addrs[0], addrs[0])
    }
}

/// The commands for a sorted address list.
pub open spec fn cmds_of(addrs: Seq<u32>) -> Seq<MemCmd> {
    coalesce_ranges(addrs).map_values(|r: (u32, u32)| spec_cmd(r.0, r.1))
}

/// Every address-register value observed in the window `[start, end]`.
pub open spec fn window_addrs(svs: Seq<CpuStepV>, start: int, end: int) -> Set<u32> {
    Set::new(
        |a: u32|
            exists|i: int, j: int|
                start <= i <= end && 0 <= j < 8 && (#[trigger] svs[i].address[j]) == a,
    )
}

fn cmd_exec(first: u32, last: u32) -> (r: MemCmd)
    requires
        first <= last,
    ensures
        r == spec_cmd(first, last),
{
    let start: u32 = first & 0xFFFF_FF80;
    let end64: u64 = (last as u64 + 0x100) & 0xFFFF_FFFF_FFFF_FF80u64;
    proof {
        let s64 = (first & 0xFFFF_FF80u32) as u64;
        let l64 = last as u64;
        assert(s64 <= ((l64 + 0x100) as u64) & 0xFFFF_FFFF_FFFF_FF80u64 && (((l64 + 0x100) as u64)
            & 0xFFFF_FFFF_FFFF_FF80u64) - s64 <= 0xFFFF_FFFFu64 * 16) by (bit_vector)
            requires
                s64 == (first & 0xFFFF_FF80u32) as u64,
                l64 == last as u64,
                l64 <= 0xFFFF_FFFFu64,
                first <= last,
        ;
    }
    let lines64: u64 = (end64 - (start as u64)) / 16;
    MemCmd { start, lines: lines64 as u32 }
}

impl Dump {
    /// Commands capturing all memory the address registers pointed at in
    /// the window of `num_before` steps ending at the first occurrence
    /// of `pc`: the sorted address set coalesced into ranges (gaps over
    /// 128 bytes split), each rounded outward to 128-byte alignment.
    pub fn dump_memlist_cmds(&self, pc: u32, num_before: usize) -> (r: Result<
        Vec<MemCmd>,
        DumpError,
    >)
        requires
            self.wf(),
        ensures
            match r {
                Ok(cmds) => {
                    let end = first_idx_of_pc(self.svs(), pc, 0);
                    let start = if end > num_before {
                        end - num_before
                    } else {
                        0
                    };
                    &&& end != -1
                    &&& exists|addrs: Seq<u32>|
                        sorted_strict(addrs) && set_of(addrs) == window_addrs(
                            self.svs(),
                            start,
                            end,
                        ) && cmds@ == #[trigger] cmds_of(addrs)
                },
                Err(e) => e == DumpError::PcNotFound && first_idx_of_pc(self.svs(), pc, 0) == -1,
            },
    {
        let ghost svs = self.svs();
        let end = match self.first_index_of_pc(pc) {
            Ok(i) => i,
            Err(e) => {
                return Err(e);
            },
        };
        let start = if end > num_before {
            end - num_before
        } else {
            0
        };
        let mut addrs: Vec<u32> = Vec::new();
        let mut i = start;
        let n_steps = self.steps.len();
        proof {
            assert(set_of(addrs@) =~= window_addrs(svs, start as int, start - 1));
            assert(svs.len() == n_steps);
        }
        while i <= end
            invariant
                self.wf(),
                svs == self.svs(),
                svs.len() == n_steps,
                start <= i <= end + 1,
                end < svs.len(),
                sorted_strict(addrs@),
                set_of(addrs@) == window_addrs(svs, start as int, i - 1),
            decreases end + 1 - i,
        {
            let ghost stv = svs[i as int];
            let step = &self.steps[i];
            proof {
                assert(svs[i as int] == self.steps@[i as int]@);
                assert(stv.wf());
            }
            let ghost pre = set_of(addrs@);
            insert_sorted(&mut addrs, step.address[0]);
            insert_sorted(&mut addrs, step.address[1]);
            insert_sorted(&mut addrs, step.address[2]);
            insert_sorted(&mut addrs, step.address[3]);
            insert_sorted(&mut addrs, step.address[4]);
            insert_sorted(&mut addrs, step.address[5]);
            insert_sorted(&mut addrs, step.address[6]);
            insert_sorted(&mut addrs, step.address[7]);
            proof {
                assert(set_of(addrs@) == pre.insert(stv.address[0]).insert(stv.address[1]).insert(
                    stv.address[2],
                ).insert(stv.address[3]).insert(stv.address[4]).insert(stv.address[5]).insert(
                    stv.address[6],
                ).insert(stv.address[7]));
                assert forall|a: u32| window_addrs(svs, start as int, i as int).contains(
                    a,
                ) implies set_of(addrs@).contains(a) by {
                    let (ii, jj) = choose|ii: int, jj: int|
                        start <= ii <= i as int && 0 <= jj < 8 && (#[trigger] svs[ii].address[jj])
                            == a;
                    if ii < i {
                        assert(window_addrs(svs, start as int, i - 1).contains(a));
                    } else {
                        assert(stv.address[jj] == a);
                        assert(jj == 0 || jj == 1 || jj == 2 || jj == 3 || jj == 4 || jj == 5
                            || jj == 6 || jj == 7);
                    }
                }
                assert forall|a: u32| set_of(addrs@).contains(a) implies window_addrs(
                    svs,
                    start as int,
                    i as int,
                ).contains(a) by {
                    if pre.contains(a) {
                        let (ii, jj) = choose|ii: int, jj: int|
                            start <= ii <= i - 1 && 0 <= jj < 8 && (
                            #[trigger] svs[ii].address[jj]) == a;
                        assert(svs[ii].address[jj] == a);
                    } else {
                        assert(a == stv.address[0] || a == stv.address[1] || a == stv.address[2]
                            || a == stv.address[3] || a == stv.address[4] || a == stv.address[5]
                            || a == stv.address[6] || a == stv.address[7]);
                        if a == stv.address[0] {
                            assert(svs[i as int].address[0] == a);
                        } else if a == stv.address[1] {
                            assert(svs[i as int].address[1] == a);
                        } else if a == stv.address[2] {
                            assert(svs[i as int].address[2] == a);
                        } else if a == stv.address[3] {
                            assert(svs[i as int].address[3] == a);
                        } else if a == stv.address[4] {
                            assert(svs[i as int].address[4] == a);
                        } else if a == stv.address[5] {
                            assert(svs[i as int].address[5] == a);
                        } else if a == stv.address[6] {
                            assert(svs[i as int].address[6] == a);
                        } else {
                            assert(svs[i as int].address[7] == a);
                        }
                        assert(exists|ii: int, jj: int|
                            start <= ii <= i as int && 0 <= jj < 8 && (
                            #[trigger] svs[ii].address[jj]) == a);
                    }
                }
                assert(set_of(addrs@) =~= window_addrs(svs, start as int, i as int));
            }
            i = i + 1;
        }

        // coalesce the sorted set into ranges and round each outward
        let mut cmds: Vec<MemCmd> = Vec::new();
        if addrs.len() == 0 {
            proof {
                assert(cmds@ =~= cmds_of(addrs@));
            }
            return Ok(cmds);
        }
        let mut first = addrs[0];
        let mut last = first;
        let mut k: usize = 1;
        while k < addrs.len()
            invariant
                sorted_strict(addrs@),
                addrs@.len() > 0,
                1 <= k <= addrs@.len(),
                first <= last,
                last == addrs@[k - 1],
                cmds_of(addrs@) == cmds@.map_values(|c: MemCmd| c) + coalesce_from(
                    addrs@,
                    k as int,
                    first,
                    last,
                ).map_values(|r: (u32, u32)| spec_cmd(r.0, r.1)),
            decreases addrs@.len() - k,
        {
            let a = addrs[k];
            proof {
                assert(addrs@[k - 1] < addrs@[k as int]);
            }
            if (a as u64) > (last as u64) + 128 {
                let ghost pre = cmds@;
                cmds.push(cmd_exec(first, last));
                proof {
                    let tail = coalesce_from(addrs@, k as int, first, last);
                    assert(tail == seq![(first, last)] + coalesce_from(
                        addrs@,
                        k + 1,
                        addrs@[k as int],
                        addrs@[k as int],
                    ));
                    assert(pre.map_values(|c: MemCmd| c) + tail.map_values(
                        |r: (u32, u32)| spec_cmd(r.0, r.1),
                    ) =~= cmds@.map_values(|c: MemCmd| c) + coalesce_from(
                        addrs@,
                        k + 1,
                        addrs@[k as int],
                        addrs@[k as int],
                    ).map_values(|r: (u32, u32)| spec_cmd(r.0, r.1)));
                }
                first = a;
                last = a;
            } else {
                proof {
                    assert(coalesce_from(addrs@, k as int, first, last) == coalesce_from(
                        addrs@,
                        k + 1,
                        first,
                        addrs@[k as int],
                    ));
                }
                last = a;
            }
            k = k + 1;
        }
        let ghost pre = cmds@;
        cmds.push(cmd_exec(first, last));
        proof {
            assert(coalesce_from(addrs@, addrs@.len() as int, first, last) =~= seq![
                (first, last),
            ]);
            assert(pre.map_values(|c: MemCmd| c) + seq![(first, last)].map_values(
                |r: (u32, u32)| spec_cmd(r.0, r.1),
            ) =~= cmds@.map_values(|c: MemCmd| c));
            assert(cmds@.map_values(|c: MemCmd| c) =~= cmds@);
            assert(cmds@ =~= cmds_of(addrs@));
        }
        Ok(cmds)
    }
}

} // verus!

verus! {

// --- call-stack reconstruction ------------------------------------------

/// One line of a reconstructed call stack.
pub struct StackRow {
    pub level: usize,
    pub pc: u32,
    pub note: Vec<u8>,
}

/// Lines the backward walk emits, in walk order: stepping from `idx`
/// down to zero, the depth falls by each step's call-depth delta, and a
/// new minimum emits the step entered by the call just crossed.
pub open spec fn stack_emits(
    svs: Seq<CpuStepV>,
    start: int,
    idx: int,
    depth: int,
    mind: int,
) -> Seq<(u32, Seq<u8>)>
    decreases idx,
{
    if !(0 <= idx <= start < svs.len()) {
        Seq::empty()
    } else {
        let d2 = depth - spec_depth_mod(svs[idx].note);
        let cand = if idx == start {
            svs[idx]
        } else {
            svs[idx + 1]
        };
        let emitted: Seq<(u32, Seq<u8>)> = if d2 < mind {
            seq![(cand.pc, cand.note)]
        } else {
            Seq::empty()
        };
        if idx == 0 {
            emitted
        } else {
            emitted + stack_emits(
                svs,
                start,
                idx - 1,
                d2,
                if d2 < mind {
                    d2
                } else {
                    mind
                },
            )
        }
    }
}

/// The whole stack in walk order: the queried line first, then each
/// caller as the walk finds it.
pub open spec fn stack_walk(svs: Seq<CpuStepV>, start: int) -> Seq<(u32, Seq<u8>)> {
    seq![(svs[start].pc, svs[start].note)] + stack_emits(svs, start, start, 0, 0)
}

pub open spec fn pair_views(ps: Seq<(u32, Vec<u8>)>) -> Seq<(u32, Seq<u8>)> {
    Seq::new(ps.len(), |t: int| (ps[t].0, ps[t].1@))
}

/// Within a reconstructed call stack the indentation level never
/// decreases from the outermost line to the innermost: each line's
/// level is its position.
pub proof fn lemma_stack_levels_monotonic(rows: Seq<StackRow>)
    requires
        forall|t: int| 0 <= t < rows.len() ==> (#[trigger] rows[t]).level == t,
    ensures
        forall|a: int, b: int|
            0 <= a <= b < rows.len() ==> (#[trigger] rows[a]).level <= (#[trigger] rows[b]).level,
{
}

fn copy_bytes(v: &Vec<u8>) -> (r: Vec<u8>)
    ensures
        r@ == v@,
{
    let mut out: Vec<u8> = Vec::new();
    out.extend_from_slice(v.as_slice());
    proof {
        assert(out@ =~= v@);
    }
    out
}

impl Dump {
    /// The call hierarchy leading to the first occurrence of `pc`,
    /// outermost caller first; the queried line comes last and levels
    /// grow inward one per line.
    pub fn stack(&self, pc: u32) -> (r: Result<Vec<StackRow>, DumpError>)
        requires
            self.wf(),
        ensures
            match r {
                Ok(rows) => {
                    let start = first_idx_of_pc(self.svs(), pc, 0);
                    let full = stack_walk(self.svs(), start);
                    &&& start != -1
                    &&& rows@.len() == full.len()
                    &&& forall|t: int|
                        0 <= t < rows@.len() ==> (#[trigger] rows@[t]).level == t && rows@[t].pc
                            == full[full.len() - 1 - t].0 && rows@[t].note@ == full[full.len() - 1
                            - t].1
                },
                Err(e) => e == DumpError::PcNotFound && first_idx_of_pc(self.svs(), pc, 0) == -1,
            },
    {
        let ghost svs = self.svs();
        let start = match self.first_index_of_pc(pc) {
            Ok(i) => i,
            Err(e) => {
                return Err(e);
            },
        };
        let ghost full = stack_walk(svs, start as int);
        let mut tmp: Vec<(u32, Vec<u8>)> = Vec::new();
        let first_note = copy_bytes(&self.steps[start].note);
        let first_pc = self.steps[start].pc;
        proof {
            assert(svs[start as int] == self.steps@[start as int]@);
        }
        tmp.push((first_pc, first_note));
        proof {
            assert(pair_views(tmp@) =~= seq![(svs[start as int].pc, svs[start as int].note)]);
        }
        let mut idx: usize = start;
        let mut depth: i64 = 0;
        let mut mind: i64 = 0;
        loop
            invariant_except_break
                self.wf(),
                svs == self.svs(),
                svs.len() < 0x4000_0000_0000_0000,
                idx <= start < svs.len(),
                -(start - idx) - 1 <= depth <= (start - idx) + 1,
                -(start - idx) - 1 <= mind <= 0,
                full == pair_views(tmp@) + stack_emits(
                    svs,
                    start as int,
                    idx as int,
                    depth as int,
                    mind as int,
                ),
            ensures
                full == pair_views(tmp@),
            decreases idx,
        {
            let ghost tmp0 = pair_views(tmp@);
            let dm = self.steps[idx].depth_mod();
            proof {
                assert(svs[idx as int] == self.steps@[idx as int]@);
            }
            let d2 = depth - dm;
            let cand: usize = if idx == start {
                idx
            } else {
                idx + 1
            };
            if d2 < mind {
                let note = copy_bytes(&self.steps[cand].note);
                let cpc = self.steps[cand].pc;
                proof {
                    assert(svs[cand as int] == self.steps@[cand as int]@);
                }
                tmp.push((cpc, note));
                mind = d2;
                proof {
                    assert(pair_views(tmp@) =~= tmp0 + seq![
                        (svs[cand as int].pc, svs[cand as int].note),
                    ]);
                }
            }
            depth = d2;
            if idx == 0 {
                proof {
                    assert(full =~= pair_views(tmp@));
                }
                break;
            }
            idx = idx - 1;
        }
        let mut rows: Vec<StackRow> = Vec::new();
        let n = tmp.len();
        let mut t: usize = 0;
        while t < n
            invariant
                n == tmp@.len(),
                full == pair_views(tmp@),
                t <= n,
                rows@.len() == t,
                forall|u: int|
                    0 <= u < t ==> (#[trigger] rows@[u]).level == u && rows@[u].pc == full[full.len()
                        - 1 - u].0 && rows@[u].note@ == full[full.len() - 1 - u].1,
            decreases n - t,
        {
            let src = &tmp[n - 1 - t];
            let note = copy_bytes(&src.1);
            rows.push(StackRow { level: t, pc: src.0, note });
            t = t + 1;
        }
        Ok(rows)
    }
}

// --- instruction-pattern search -----------------------------------------

/// The pattern line step `i` contributes, judged against its
/// predecessor's stored next pc.
pub open spec fn spec_pattern(svs: Seq<CpuStepV>, i: int) -> Result<(bool, Seq<u8>, u32), DumpError> {
    let gap = svs[i].pc - svs[i - 1].pc_next;
    if gap == 0 {
        Ok((true, trim_trailing_spaces(svs[i].pc_note), 0u32))
    } else if 0 < gap < 80 {
        Ok((false, Seq::empty(), gap as u32))
    } else if gap < 0 {
        Err(DumpError::NonMonotonicTrace)
    } else {
        Err(DumpError::ExcessiveGap)
    }
}

/// The pattern lines of steps `i..=end`, clipped at the end of the
/// trace; the first invalid gap aborts the whole query.
pub open spec fn ghidra_walk(svs: Seq<CpuStepV>, i: int, end: int) -> Result<
    Seq<(bool, Seq<u8>, u32)>,
    DumpError,
>
    decreases end - i + 1,
{
    if i > end || i >= svs.len() || i < 1 {
        Ok(Seq::empty())
    } else {
        match spec_pattern(svs, i) {
            Ok(l) => match ghidra_walk(svs, i + 1, end) {
                Ok(rest) => Ok(seq![l] + rest),
                Err(e) => Err(e),
            },
            Err(e) => Err(e),
        }
    }
}

/// The abstract content of one pattern line.
pub open spec fn pattern_line_view(p: PatternLine) -> (bool, Seq<u8>, u32) {
    match p {
        PatternLine::Text(t) => (true, t@, 0u32),
        PatternLine::Wildcards(w) => (false, Seq::empty(), w),
    }
}

pub open spec fn pattern_views(ps: Seq<PatternLine>) -> Seq<(bool, Seq<u8>, u32)> {
    Seq::new(ps.len(), |t: int| pattern_line_view(ps[t]))
}

impl Dump {
    /// A pattern for an instruction search: each step after the first
    /// occurrence of `pc` contributes its mnemonic when contiguous with
    /// its predecessor, a short forward gap contributes wildcard bytes,
    /// and a backward or overlong jump aborts the query.
    pub fn ghidra_search(&self, pc: u32, num_after: usize) -> (r: Result<
        Vec<PatternLine>,
        DumpError,
    >)
        requires
            self.wf(),
        ensures
            ({
                let start = first_idx_of_pc(self.svs(), pc, 0);
                match r {
                    Ok(lines) => start != -1 && ghidra_walk(
                        self.svs(),
                        start + 1,
                        start + num_after,
                    ) == Ok::<_, DumpError>(pattern_views(lines@)),
                    Err(e) => (e == DumpError::PcNotFound && start == -1) || (start != -1 && e
                        != DumpError::PcNotFound && ghidra_walk(
                        self.svs(),
                        start + 1,
                        start + num_after,
                    ) == Err::<Seq<(bool, Seq<u8>, u32)>, _>(e)),
                }
            }),
    {
        let ghost svs = self.svs();
        let start = match self.first_index_of_pc(pc) {
            Ok(i) => i,
            Err(e) => {
                return Err(e);
            },
        };
        let ghost end = start + num_after as int;
        let mut out: Vec<PatternLine> = Vec::new();
        let n = self.steps.len();
        let mut i: usize = start + 1;
        proof {
            assert(pattern_views(out@) =~= Seq::<(bool, Seq<u8>, u32)>::empty());
            assert(svs.len() == n);
        }
        while i < n && i - start <= num_after
            invariant
                self.wf(),
                svs == self.svs(),
                svs.len() == n,
                end == start + num_after as int,
                first_idx_of_pc(svs, pc, 0) == start as int,
                start < svs.len(),
                start + 1 <= i,
                i <= end + 1 || i == start + 1,
                match ghidra_walk(svs, i as int, end) {
                    Ok(rest) => ghidra_walk(svs, start + 1, end) == Ok::<_, DumpError>(
                        pattern_views(out@) + rest,
                    ),
                    Err(e) => ghidra_walk(svs, start + 1, end) == Err::<
                        Seq<(bool, Seq<u8>, u32)>,
                        _,
                    >(e),
                },
            decreases svs.len() - i,
        {
            let ghost out0 = pattern_views(out@);
            proof {
                assert(svs[i as int] == self.steps@[i as int]@);
                assert(svs[i - 1] == self.steps@[i - 1]@);
            }
            let line = match self.steps[i].print_for_search(&self.steps[i - 1]) {
                Ok(l) => l,
                Err(e) => {
                    proof {
                        assert(spec_pattern(svs, i as int) == Err::<(bool, Seq<u8>, u32), _>(e));
                        assert(ghidra_walk(svs, i as int, end) == Err::<
                            Seq<(bool, Seq<u8>, u32)>,
                            _,
                        >(e));
                    }
                    return Err(e);
                },
            };
            proof {
                assert(spec_pattern(svs, i as int) == Ok::<_, DumpError>(pattern_line_view(line)));
            }
            out.push(line);
            proof {
                assert(pattern_views(out@) =~= out0.push(pattern_line_view(out@[out@.len() - 1])));
                match ghidra_walk(svs, i + 1, end) {
                    Ok(rest) => {
                        assert(out0 + (seq![pattern_line_view(out@[out@.len() - 1])] + rest)
                            =~= pattern_views(out@) + rest);
                    },
                    Err(e) => {},
                }
            }
            i = i + 1;
        }
        proof {
            assert(ghidra_walk(svs, i as int, end) == Ok::<_, DumpError>(
                Seq::<(bool, Seq<u8>, u32)>::empty(),
            ));
            assert(pattern_views(out@) + Seq::<(bool, Seq<u8>, u32)>::empty() =~= pattern_views(
                out@,
            ));
        }
        Ok(out)
    }
}

// --- full call-hierarchy pass -------------------------------------------

/// One call or return in the trace, with the call depth entered before
/// it.
pub struct CallRow {
    pub index: usize,
    pub pc: u32,
    pub note: Vec<u8>,
    pub depth: i64,
    pub delta: i64,
}

/// Call depth accumulated before step `i`.
pub open spec fn cum_depth(svs: Seq<CpuStepV>, i: int) -> int
    decreases i,
{
    if i <= 0 {
        0
    } else {
        cum_depth(svs, i - 1) + spec_depth_mod(svs[i - 1].note)
    }
}

/// The rows of the full forward pass from step `i` on: every step that
/// changes the call depth contributes one row.
pub open spec fn call_rows(svs: Seq<CpuStepV>, i: int) -> Seq<(int, u32, Seq<u8>, int, int)>
    decreases svs.len() - i,
{
    if i < 0 || i >= svs.len() {
        Seq::empty()
    } else {
        (if spec_depth_mod(svs[i].note) != 0 {
            seq![(i, svs[i].pc, svs[i].note, cum_depth(svs, i), spec_depth_mod(svs[i].note))]
        } else {
            Seq::empty()
        }) + call_rows(svs, i + 1)
    }
}

pub open spec fn call_row_views(rs: Seq<CallRow>) -> Seq<(int, u32, Seq<u8>, int, int)> {
    Seq::new(rs.len(), |t: int| (rs[t].index as int, rs[t].pc, rs[t].note@, rs[t].depth as int, rs[t].delta as int))
}

impl Dump {
    /// Reconstruct the entire nested call hierarchy in one forward
    /// pass, independent of any target pc.
    pub fn calls(&self) -> (r: Vec<CallRow>)
        requires
            self.wf(),
        ensures
            call_row_views(r@) == call_rows(self.svs(), 0),
    {
        let ghost svs = self.svs();
        let mut out: Vec<CallRow> = Vec::new();
        let mut depth: i64 = 0;
        let mut i: usize = 0;
        proof {
            assert(call_row_views(out@) =~= Seq::<(int, u32, Seq<u8>, int, int)>::empty());
        }
        while i < self.steps.len()
            invariant
                self.wf(),
                svs == self.svs(),
                i <= svs.len(),
                svs.len() < 0x4000_0000_0000_0000,
                -(i as int) <= depth <= i as int,
                depth == cum_depth(svs, i as int),
                call_rows(svs, 0) == call_row_views(out@) + call_rows(svs, i as int),
            decreases svs.len() - i,
        {
            let ghost out0 = call_row_views(out@);
            let dm = self.steps[i].depth_mod();
            proof {
                assert(svs[i as int] == self.steps@[i as int]@);
            }
            if dm != 0 {
                let note = copy_bytes(&self.steps[i].note);
                out.push(CallRow { index: i, pc: self.steps[i].pc, note, depth, delta: dm });
                proof {
                    assert(call_row_views(out@) =~= out0 + seq![
                        (
                            i as int,
                            svs[i as int].pc,
                            svs[i as int].note,
                            cum_depth(svs, i as int),
                            spec_depth_mod(svs[i as int].note),
                        ),
                    ]);
                    assert(out0 + (seq![
                        (
                            i as int,
                            svs[i as int].pc,
                            svs[i as int].note,
                            cum_depth(svs, i as int),
                            spec_depth_mod(svs[i as int].note),
                        ),
                    ] + call_rows(svs, i + 1)) =~= call_row_views(out@) + call_rows(svs, i + 1));
                }
            } else {
                proof {
                    assert(out0 + (Seq::<(int, u32, Seq<u8>, int, int)>::empty() + call_rows(
                        svs,
                        i + 1,
                    )) =~= out0 + call_rows(svs, i + 1));
                }
            }
            depth = depth + dm;
            i = i + 1;
        }
        proof {
            assert(call_rows(svs, svs.len() as int) =~= Seq::<(int, u32, Seq<u8>, int, int)>::empty());
            assert(call_row_views(out@) + Seq::<(int, u32, Seq<u8>, int, int)>::empty()
                =~= call_row_views(out@));
        }
        out
    }
}

} // verus!

verus! {

// --- windowed inspection ------------------------------------------------

/// One changed data register between two adjacent steps.
#[derive(Clone, Copy, Debug, PartialEq, Eq, Structural)]
pub struct RegDiff {
    pub reg: usize,
    pub old_val: u32,
    pub new_val: u32,
}

/// One address register the instruction text names, with the memory its
/// value points at in the snapshot.
pub struct MemNote {
    pub reg: usize,
    pub addr: u32,
    pub mem: MemAt,
}

#[verifier::ext_equal]
pub ghost struct MemNoteV {
    pub reg: int,
    pub addr: u32,
    pub mem: MemAtV,
}

impl View for MemNote {
    type V = MemNoteV;

    open spec fn view(&self) -> MemNoteV {
        MemNoteV { reg: self.reg as int, addr: self.addr, mem: self.mem@ }
    }
}

/// One rendered line of a window inspection.
pub struct InspectRow {
    pub depth: i64,
    pub countdown: Option<usize>,
    pub pc: u32,
    pub note: Vec<u8>,
    pub reg_changes: Vec<RegDiff>,
    pub mem_notes: Vec<MemNote>,
}

#[verifier::ext_equal]
pub ghost struct InspectRowV {
    pub depth: int,
    pub countdown: Option<int>,
    pub pc: u32,
    pub note: Seq<u8>,
    pub reg_changes: Seq<RegDiff>,
    pub mem_notes: Seq<MemNoteV>,
}

impl View for InspectRow {
    type V = InspectRowV;

    open spec fn view(&self) -> InspectRowV {
        InspectRowV {
            depth: self.depth as int,
            countdown: match self.countdown {
                Some(n) => Some(n as int),
                None => None,
            },
            pc: self.pc,
            note: self.note@,
            reg_changes: self.reg_changes@,
            mem_notes: Seq::new(self.mem_notes@.len(), |t: int| self.mem_notes@[t]@),
        }
    }
}

/// The data registers that differ between the two steps, low register
/// first, over the first `r` registers.
pub open spec fn reg_diffs_upto(cur: CpuStepV, prev: CpuStepV, r: int) -> Seq<RegDiff>
    decreases r,
{
    if r <= 0 {
        Seq::empty()
    } else {
        reg_diffs_upto(cur, prev, r - 1) + if cur.data[r - 1] != prev.data[r - 1] {
            seq![
                RegDiff {
                    reg: (r - 1) as usize,
                    old_val: prev.data[r - 1],
                    new_val: cur.data[r - 1],
                },
            ]
        } else {
            Seq::empty()
        }
    }
}

pub open spec fn reg_diffs(cur: CpuStepV, prev: CpuStepV) -> Seq<RegDiff> {
    reg_diffs_upto(cur, prev, 8)
}

/// Only certain instruction classes have their address registers
/// resolved against the snapshot; classification reads the fixed-width
/// instruction text.
pub open spec fn wants_memory(note: Seq<u8>) -> bool {
    ||| (note.len() >= 1 && (note[0] == 65 || note[0] == 68 || note[0] == 79))
    ||| (note.len() >= 2 && ((note[0] == 76 && note[1] == 83) || (note[0] == 82 && note[1]
        == 79)))
    ||| (note.len() >= 3 && ((note[0] == 67 && note[1] == 77 && note[2] == 80) || (note[0] == 69
        && note[1] == 79 && note[2] == 82) || (note[0] == 77 && note[1] == 85 && note[2] == 76) || (
    note[0] == 78 && note[1] == 69 && note[2] == 71) || (note[0] == 78 && note[1] == 79 && note[2]
        == 84) || (note[0] == 83 && note[1] == 66 && note[2] == 67) || (note[0] == 83 && note[1]
        == 85 && note[2] == 66)))
}

/// The memory notes of one step from text position `p` on: each `A`
/// followed by a register digit points the snapshot lookup at that
/// address register's value.
pub open spec fn mem_notes_from(cur: CpuStepV, parts: Seq<MemPartV>, p: int) -> Seq<MemNoteV>
    decreases cur.note.len() - p,
{
    if p < 2 || p + 1 >= cur.note.len() {
        Seq::empty()
    } else {
        (if cur.note[p] == 65 && 48 <= cur.note[p + 1] <= 55 {
            seq![
                MemNoteV {
                    reg: cur.note[p + 1] - 48,
                    addr: cur.address[cur.note[p + 1] - 48],
                    mem: spec_mem_at(parts, cur.address[cur.note[p + 1] - 48], 4),
                },
            ]
        } else {
            Seq::empty()
        }) + mem_notes_from(cur, parts, p + 1)
    }
}

/// The full content of the inspection line for step `i` of the window
/// ending at `end`, rendered at indentation `depth`.
pub open spec fn spec_row(
    prev: CpuStepV,
    cur: CpuStepV,
    parts: Seq<MemPartV>,
    num: int,
    depth: int,
) -> InspectRowV {
    InspectRowV {
        depth,
        countdown: if spec_depth_mod(cur.note) > 0 || spec_depth_mod(prev.note) < 0 {
            Some(num)
        } else {
            None
        },
        pc: cur.pc,
        note: cur.note,
        reg_changes: reg_diffs(cur, prev),
        mem_notes: if wants_memory(cur.note) {
            mem_notes_from(cur, parts, 2)
        } else {
            Seq::empty()
        },
    }
}

impl CpuStep {
    /// The structured difference line between this step and its
    /// predecessor `other`: changed data registers, snapshot content
    /// behind named address registers, the mnemonic, and a step
    /// countdown at call-depth changes.  `depth` advances by this
    /// step's call-depth delta.
    pub fn pretty_diff(
        &self,
        other: &CpuStep,
        mem: &MemDump,
        num: usize,
        depth: &mut i64,
    ) -> (r: InspectRow)
        requires
            self.wf(),
            other.wf(),
            mem.wf(),
            -0x7FFF_FFFF_FFFF_FFFF < *old(depth) < 0x7FFF_FFFF_FFFF_FFFF,
        ensures
            r@ == spec_row(other@, self@, mem@, num as int, *old(depth) as int),
            *final(depth) == *old(depth) + spec_depth_mod(self@.note),
    {
        let row_depth = *depth;
        let mut diffs: Vec<RegDiff> = Vec::new();
        let mut rr: usize = 0;
        while rr < 8
            invariant
                self.wf(),
                other.wf(),
                rr <= 8,
                diffs@ == reg_diffs_upto(self@, other@, rr as int),
            decreases 8 - rr,
        {
            if self.data[rr] != other.data[rr] {
                diffs.push(
                    RegDiff { reg: rr, old_val: other.data[rr], new_val: self.data[rr] },
                );
                proof {
                    assert(diffs@ =~= reg_diffs_upto(self@, other@, rr + 1));
                }
            } else {
                proof {
                    assert(diffs@ =~= reg_diffs_upto(self@, other@, rr + 1));
                }
            }
            rr = rr + 1;
        }

        let wants = {
            let n = &self.note;
            let b0 = n[0];
            let b1 = n[1];
            let b2 = n[2];
            (b0 == 65 || b0 == 68 || b0 == 79) || ((b0 == 76 && b1 == 83) || (b0 == 82 && b1
                == 79)) || ((b0 == 67 && b1 == 77 && b2 == 80) || (b0 == 69 && b1 == 79 && b2
                == 82) || (b0 == 77 && b1 == 85 && b2 == 76) || (b0 == 78 && b1 == 69 && b2 == 71)
                || (b0 == 78 && b1 == 79 && b2 == 84) || (b0 == 83 && b1 == 66 && b2 == 67) || (b0
                == 83 && b1 == 85 && b2 == 66))
        };
        proof {
            assert(wants == wants_memory(self@.note));
        }
        let mut notes: Vec<MemNote> = Vec::new();
        if wants {
            let mut p: usize = 2;
            proof {
                assert(Seq::new(notes@.len(), |t: int| notes@[t]@) =~= Seq::<MemNoteV>::empty());
            }
            while p + 1 < 64
                invariant
                    self.wf(),
                    mem.wf(),
                    2 <= p <= 63,
                    mem_notes_from(self@, mem@, 2) == Seq::new(
                        notes@.len(),
                        |t: int| notes@[t]@,
                    ) + mem_notes_from(self@, mem@, p as int),
                decreases 64 - p,
            {
                let ghost pre = Seq::new(notes@.len(), |t: int| notes@[t]@);
                let b = self.note[p];
                let d = self.note[p + 1];
                if b == 65 && 48 <= d && d <= 55 {
                    let reg = (d - 48) as usize;
                    let addr = self.address[reg];
                    let looked = mem.get_mem_at(addr, 4);
                    notes.push(MemNote { reg, addr, mem: looked });
                    proof {
                        assert(Seq::new(notes@.len(), |t: int| notes@[t]@) =~= pre + seq![
                            MemNoteV {
                                reg: self@.note[p + 1] - 48,
                                addr: self@.address[self@.note[p + 1] - 48],
                                mem: spec_mem_at(
                                    mem@,
                                    self@.address[self@.note[p + 1] - 48],
                                    4,
                                ),
                            },
                        ]);
                    }
                }
                p = p + 1;
            }
            proof {
                assert(mem_notes_from(self@, mem@, 63) =~= Seq::<MemNoteV>::empty());
                assert(Seq::new(notes@.len(), |t: int| notes@[t]@) + Seq::<MemNoteV>::empty()
                    =~= Seq::new(notes@.len(), |t: int| notes@[t]@));
            }
        }

        let dm = self.depth_mod();
        let marker = dm > 0 || other.depth_mod() < 0;
        *depth = *depth + dm;
        let row = InspectRow {
            depth: row_depth,
            countdown: if marker {
                Some(num)
            } else {
                None
            },
            pc: self.pc,
            note: copy_bytes(&self.note),
            reg_changes: diffs,
            mem_notes: notes,
        };
        proof {
            assert(row@ =~= spec_row(other@, self@, mem@, num as int, row_depth as int));
        }
        row
    }
}

/// Call-depth total of the first `t` steps of the window starting at
/// `s0`.
pub open spec fn win_cum(svs: Seq<CpuStepV>, s0: int, t: int) -> int
    decreases t,
{
    if t <= 0 {
        0
    } else {
        win_cum(svs, s0, t - 1) + spec_depth_mod(svs[s0 + t - 1].note)
    }
}

/// The minimum the running depth reaches over the first `t` steps,
/// never above zero.
pub open spec fn win_min(svs: Seq<CpuStepV>, s0: int, t: int) -> int
    decreases t,
{
    if t <= 0 {
        0
    } else {
        let m = win_min(svs, s0, t - 1);
        let c = win_cum(svs, s0, t);
        if c < m {
            c
        } else {
            m
        }
    }
}

proof fn lemma_win_cum_bound(svs: Seq<CpuStepV>, s0: int, t: int)
    requires
        t >= 0,
    ensures
        -t <= win_cum(svs, s0, t) <= t,
    decreases t,
{
    if t > 0 {
        lemma_win_cum_bound(svs, s0, t - 1);
    }
}

proof fn lemma_win_min_le(svs: Seq<CpuStepV>, s0: int, t: int, u: int)
    requires
        0 <= u <= t,
    ensures
        win_min(svs, s0, t) <= win_cum(svs, s0, u),
        win_min(svs, s0, t) <= 0,
    decreases t,
{
    if t > 0 {
        if u == t {
            lemma_win_min_le(svs, s0, t - 1, 0);
        } else {
            lemma_win_min_le(svs, s0, t - 1, u);
        }
    }
}

impl Dump {
    /// Render the window of `num_before` steps ending at the first
    /// occurrence of `pc` as successive pairwise diffs.  The initial
    /// indentation offsets the window's lowest running depth, so no
    /// line's indentation is negative.
    pub fn inspect(&self, mem: &MemDump, pc: u32, num_before: usize) -> (r: Result<
        Vec<InspectRow>,
        DumpError,
    >)
        requires
            self.wf(),
            mem.wf(),
        ensures
            match r {
                Ok(rows) => {
                    let end = first_idx_of_pc(self.svs(), pc, 0);
                    let s0 = (if end > num_before {
                        end - num_before
                    } else {
                        0
                    }) + 1;
                    let count = if s0 <= end {
                        end - s0 + 1
                    } else {
                        0
                    };
                    let base = -win_min(self.svs(), s0, count);
                    &&& end != -1
                    &&& rows@.len() == count
                    &&& forall|t: int|
                        0 <= t < count ==> (#[trigger] rows@[t])@ == spec_row(
                            self.svs()[s0 + t - 1],
                            self.svs()[s0 + t],
                            mem@,
                            end - (s0 + t),
                            base + win_cum(self.svs(), s0, t),
                        )
                    &&& forall|t: int| 0 <= t < count ==> (#[trigger] rows@[t])@.depth >= 0
                },
                Err(e) => e == DumpError::PcNotFound && first_idx_of_pc(self.svs(), pc, 0) == -1,
            },
    {
        let ghost svs = self.svs();
        let end = match self.first_index_of_pc(pc) {
            Ok(i) => i,
            Err(e) => {
                return Err(e);
            },
        };
        let n_steps = self.steps.len();
        let start = (if end > num_before {
            end - num_before
        } else {
            0
        }) + 1;
        let mut rows: Vec<InspectRow> = Vec::new();
        if start > end {
            return Ok(rows);
        }
        let ghost s0 = start as int;
        let ghost count = end - start + 1;

        // first pass: the lowest running depth of the window
        let mut depth: i64 = 0;
        let mut mind: i64 = 0;
        let mut i: usize = start;
        while i <= end
            invariant
                self.wf(),
                svs == self.svs(),
                svs.len() < 0x4000_0000_0000_0000,
                svs.len() == n_steps,
                s0 == start,
                start <= i <= end + 1,
                end < svs.len(),
                -(i as int - s0) <= depth <= i as int - s0,
                depth == win_cum(svs, s0, i - s0),
                mind == win_min(svs, s0, i - s0),
                -(i as int - s0) <= mind <= 0,
            decreases end + 1 - i,
        {
            let dm = self.steps[i].depth_mod();
            proof {
                assert(svs[i as int] == self.steps@[i as int]@);
            }
            depth = depth + dm;
            if depth < mind {
                mind = depth;
            }
            i = i + 1;
        }
        let base: i64 = -mind;

        // second pass: one structured diff row per window step
        let mut depth2: i64 = base;
        let mut t: usize = 0;
        while t < end - start + 1
            invariant
                self.wf(),
                mem.wf(),
                svs == self.svs(),
                svs.len() < 0x4000_0000_0000_0000,
                s0 == start,
                count == end - start + 1,
                start <= end < svs.len(),
                start >= 1,
                0 <= base <= count,
                mind == win_min(svs, s0, count),
                base == -mind,
                t <= count,
                depth2 == base + win_cum(svs, s0, t as int),
                0 <= depth2 <= 2 * count,
                rows@.len() == t,
                forall|u: int|
                    0 <= u < t ==> (#[trigger] rows@[u])@ == spec_row(
                        svs[s0 + u - 1],
                        svs[s0 + u],
                        mem@,
                        end - (s0 + u),
                        base + win_cum(svs, s0, u),
                    ),
                forall|u: int| 0 <= u < t ==> (#[trigger] rows@[u])@.depth >= 0,
            decreases end - start + 1 - t,
        {
            let i2 = start + t;
            proof {
                assert(svs[i2 as int] == self.steps@[i2 as int]@);
                assert(svs[i2 - 1] == self.steps@[i2 - 1]@);
                lemma_win_min_le(svs, s0, count, t as int);
            }
            proof {
                lemma_win_cum_bound(svs, s0, t as int);
            }
            let row = self.steps[i2].pretty_diff(
                &self.steps[i2 - 1],
                mem,
                end - i2,
                &mut depth2,
            );
            proof {
                assert(win_cum(svs, s0, t + 1) == win_cum(svs, s0, t as int) + spec_depth_mod(
                    svs[s0 + t].note,
                ));
                lemma_win_cum_bound(svs, s0, t + 1);
                lemma_win_min_le(svs, s0, count, t + 1);
            }
            rows.push(row);
            t = t + 1;
        }
        Ok(rows)
    }
}

// --- search size classes -------------------------------------------------

/// The byte-size class one value needs.
pub open spec fn spec_size_class(v: u32) -> u8 {
    if v <= 0xFF {
        1u8
    } else if v <= 0xFF00 {
        2u8
    } else {
        4u8
    }
}

/// The widest size class any of the values needs, at least one byte.
pub open spec fn spec_size_class_all(vs: Seq<u32>, k: int) -> u8
    decreases k,
{
    if k <= 0 {
        1u8
    } else {
        let prev = spec_size_class_all(vs, k - 1);
        let cur = spec_size_class(vs[k - 1]);
        if cur > prev {
            cur
        } else {
            prev
        }
    }
}

/// The size class a chained search over these values uses.
pub fn size_class_for(values: &Vec<u32>) -> (r: u8)
    ensures
        r == spec_size_class_all(values@, values@.len() as int),
{
    let mut size: u8 = 1;
    let mut k: usize = 0;
    while k < values.len()
        invariant
            k <= values@.len(),
            size == spec_size_class_all(values@, k as int),
        decreases values@.len() - k,
    {
        let v = values[k];
        let c: u8 = if v <= 0xFF {
            1
        } else if v <= 0xFF00 {
            2
        } else {
            4
        };
        if c > size {
            size = c;
        }
        k = k + 1;
    }
    size
}

} // verus!
