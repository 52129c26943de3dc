use dump_analyzer::cpustep::{CpuStep, PatternLine};
use dump_analyzer::dump::Dump;
use dump_analyzer::errors::DumpError;
use dump_analyzer::memdump::MemDump;

fn pad_bytes(text: &str, width: usize) -> Vec<u8> {
    let mut v: Vec<u8> = text.bytes().collect();
    while v.len() < width {
        v.push(b' ');
    }
    v.truncate(width);
    v
}

fn make_step(pc: u32, pc_next: u32, note: &str, data: [u32; 8], address: [u32; 8]) -> CpuStep {
    CpuStep {
        data: data.to_vec(),
        address: address.to_vec(),
        usp: 0,
        isp: 0,
        sfc: 0,
        dfc: 0,
        cacr: 0,
        vbr: 0,
        caar: 0,
        msp: 0,
        t: 0,
        s: false,
        m: false,
        x: false,
        n: false,
        z: false,
        v: false,
        c: false,
        imask: false,
        stp: false,
        pc,
        pc_note: pad_bytes(note, 24),
        note: pad_bytes(note, 64),
        pc_next,
    }
}

fn plain_step(pc: u32, pc_next: u32) -> CpuStep {
    make_step(pc, pc_next, "NOP", [0; 8], [0; 8])
}

#[test]
fn roundtrip_preserves_fields() {
    let step = CpuStep {
        data: vec![0x11111111, 0x22222222, 0, 0xDEADBEEF, 4, 5, 6, 0xFFFFFFFF],
        address: vec![0x1000, 0x2000, 0x3000, 0x4000, 0x5000, 0x6000, 0x7000, 0x8000],
        usp: 0xCAFE0001,
        isp: 0xCAFE0002,
        sfc: 3,
        dfc: 4,
        cacr: 5,
        vbr: 6,
        caar: 7,
        msp: 8,
        t: 0x2A,
        s: true,
        m: false,
        x: true,
        n: false,
        z: true,
        v: false,
        c: true,
        imask: false,
        stp: true,
        pc: 0x00FC0123,
        pc_note: pad_bytes("MOVE.L", 24),
        note: pad_bytes("MOVE.L (A0)+,D0", 64),
        pc_next: 0x00FC0127,
    };
    let lines = step.to_dump_lines();
    assert_eq!(lines.len(), 9);
    let (parsed, next) = CpuStep::from_dump(&lines, 0).expect("parse failed");
    assert_eq!(next, 9);
    assert_eq!(parsed.data, step.data);
    assert_eq!(parsed.address, step.address);
    assert_eq!(parsed.usp, step.usp);
    assert_eq!(parsed.isp, step.isp);
    assert_eq!(parsed.sfc, step.sfc);
    assert_eq!(parsed.dfc, step.dfc);
    assert_eq!(parsed.cacr, step.cacr);
    assert_eq!(parsed.vbr, step.vbr);
    assert_eq!(parsed.caar, step.caar);
    assert_eq!(parsed.msp, step.msp);
    assert_eq!(parsed.t, step.t);
    assert_eq!(parsed.s, step.s);
    assert_eq!(parsed.m, step.m);
    assert_eq!(parsed.x, step.x);
    assert_eq!(parsed.n, step.n);
    assert_eq!(parsed.z, step.z);
    assert_eq!(parsed.v, step.v);
    assert_eq!(parsed.c, step.c);
    assert_eq!(parsed.imask, step.imask);
    assert_eq!(parsed.stp, step.stp);
    assert_eq!(parsed.pc, step.pc);
    assert_eq!(parsed.pc_note, step.pc_note);
    assert_eq!(parsed.note, step.note);
    assert_eq!(parsed.pc_next, step.pc_next);
}

#[test]
fn roundtrip_through_text_and_back_twice() {
    let step = plain_step(0x1234, 0x1238);
    let lines = step.to_dump_lines();
    let (parsed, _) = CpuStep::from_dump(&lines, 0).expect("parse failed");
    let lines2 = parsed.to_dump_lines();
    assert_eq!(lines, lines2);
}

#[test]
fn parser_defaults_malformed_field_to_zero() {
    let step = plain_step(0x1234, 0x1238);
    let mut lines = step.to_dump_lines();
    // corrupt the USP field with a non-digit
    lines[4][6] = b'x';
    let (parsed, _) = CpuStep::from_dump(&lines, 0).expect("parse failed");
    assert_eq!(parsed.usp, 0);
    assert_eq!(parsed.pc, 0x1234);
}

#[test]
fn parser_skips_unrelated_lines() {
    let step = plain_step(0xABCD, 0xABD1);
    let mut lines: Vec<Vec<u8>> = Vec::new();
    lines.push(b"Breakpoint reached".to_vec());
    lines.push(Vec::new());
    for l in step.to_dump_lines() {
        lines.push(l);
    }
    let (parsed, next) = CpuStep::from_dump(&lines, 0).expect("parse failed");
    assert_eq!(parsed.pc, 0xABCD);
    assert_eq!(next, 11);
}

#[test]
fn parser_reports_end_of_input() {
    let lines: Vec<Vec<u8>> = vec![b"no record here".to_vec()];
    match CpuStep::from_dump(&lines, 0) {
        Err(DumpError::EndOfInput) => {}
        _ => panic!("expected end of input"),
    }
}

#[test]
fn register_change_mask_flags_transitions_only() {
    let prev = make_step(0x100, 0x104, "NOP", [7, 0x10, 0x2233, 0, 0, 0, 0, 0], [0; 8]);
    let cur = make_step(0x104, 0x108, "NOP", [7, 7, 7, 7, 0, 0, 0, 0], [0; 8]);
    // full-word search for 7: D1, D2, D3 changed to 7; D0 already held it
    let mask = cur.register_changed_to(&prev, 7, 0xFFFF_FFFF);
    assert_eq!(mask, 0b0000_1110);
}

#[test]
fn register_change_mask_honours_byte_mask() {
    let prev = make_step(0x100, 0x104, "NOP", [0xAA00, 0, 0, 0, 0, 0, 0, 0], [0; 8]);
    let cur = make_step(0x104, 0x108, "NOP", [0xBB07, 0x1107, 0, 0, 0, 0, 0, 0], [0; 8]);
    // low-byte search for 7: D0 and D1 both reach 7 in their low byte
    let mask = cur.register_changed_to(&prev, 7, 0xFF);
    assert_eq!(mask, 0b0000_0011);
}

#[test]
fn depth_mod_classifies_calls_and_returns() {
    assert_eq!(make_step(0, 0, "BSR $1234", [0; 8], [0; 8]).depth_mod(), 1);
    assert_eq!(make_step(0, 0, "JSR (A0)", [0; 8], [0; 8]).depth_mod(), 1);
    assert_eq!(make_step(0, 0, "RTS", [0; 8], [0; 8]).depth_mod(), -1);
    assert_eq!(make_step(0, 0, "RTR", [0; 8], [0; 8]).depth_mod(), -1);
    assert_eq!(make_step(0, 0, "MOVE.L D0,D1", [0; 8], [0; 8]).depth_mod(), 0);
}

#[test]
fn unique_index_keeps_only_once_occurring_pcs() {
    let steps = vec![
        plain_step(0x100, 0x104),
        plain_step(0x200, 0x204),
        plain_step(0x100, 0x104),
        plain_step(0x300, 0x304),
    ];
    let d = Dump::build(steps);
    // 0x100 occurs twice and is dropped; 0x200 and 0x300 stay
    let pcs = d.starting_pcs(0);
    assert_eq!(pcs, vec![0x200, 0x300]);
}

#[test]
fn unique_index_drops_straight_line_continuations() {
    let steps = vec![
        plain_step(0x100, 0x104),
        plain_step(0x104, 0x108),
        plain_step(0x200, 0x204),
    ];
    let d = Dump::build(steps);
    // 0x104 is the stored next pc of the kept entry 0x100
    let pcs = d.starting_pcs(0);
    assert_eq!(pcs, vec![0x100, 0x200]);
}

#[test]
fn starting_pcs_applies_offset() {
    let steps = vec![plain_step(0x1100, 0x1104)];
    let d = Dump::build(steps);
    assert_eq!(d.starting_pcs(0x100), vec![0x1000]);
}

#[test]
fn first_index_of_pc_not_found() {
    let d = Dump::build(vec![plain_step(0x100, 0x104)]);
    match d.first_index_of_pc(0x999) {
        Err(DumpError::PcNotFound) => {}
        _ => panic!("expected PcNotFound"),
    }
    assert_eq!(d.first_index_of_pc(0x100).expect("present"), 0);
}

fn search_trace() -> Dump {
    // seed at 0x100; D2 changes to 0x42 at the step with pc 0x10C
    let steps = vec![
        plain_step(0x100, 0x104),
        make_step(0x104, 0x108, "NOP", [0, 0, 0, 0, 0, 0, 0, 0], [0; 8]),
        make_step(0x108, 0x10C, "NOP", [0, 0, 0, 0, 0, 0, 0, 0], [0; 8]),
        make_step(0x10C, 0x110, "NOP", [0, 0, 0x42, 0, 0, 0, 0, 0], [0; 8]),
        make_step(0x110, 0x114, "NOP", [0, 0, 0x42, 0, 0, 0, 0, 0], [0; 8]),
    ];
    Dump::build(steps)
}

#[test]
fn search_finds_register_change() {
    let d = search_trace();
    let found = d.search_for_register_change(0x42, 1, None);
    let rows = Dump::get_changes(&found, 0x10C).expect("change at 0x10C");
    assert_eq!(rows.len(), 1);
    assert_eq!(rows[0].reg, 2);
    assert_eq!(rows[0].old_val, 0);
    assert_eq!(rows[0].new_val, 0x42);
}

#[test]
fn search_previous_narrows_keys() {
    let d = search_trace();
    let plain = d.search_for_register_change(0x42, 1, None);
    let plain_keys: Vec<u32> = plain.entries.iter().map(|e| e.0).collect();
    let narrowed = d.search_for_register_change(0x42, 1, Some(plain));
    // narrowing by an earlier result keeps a subset of the plain keys
    for e in narrowed.entries.iter() {
        assert!(plain_keys.contains(&e.0));
        // descriptions concatenate: earlier then new
        assert_eq!(e.1.len(), 2);
    }
    let d2 = search_trace();
    let empty_prev = dump_analyzer::dump::ChangeMap::new();
    let narrowed_to_nothing = d2.search_for_register_change(0x42, 1, Some(empty_prev));
    assert_eq!(narrowed_to_nothing.entries.len(), 0);
}

#[test]
fn stack_levels_never_decrease() {
    let steps = vec![
        make_step(0x100, 0x104, "BSR $200", [0; 8], [0; 8]),
        make_step(0x200, 0x204, "NOP", [0; 8], [0; 8]),
        make_step(0x204, 0x208, "BSR $300", [0; 8], [0; 8]),
        make_step(0x300, 0x304, "NOP", [0; 8], [0; 8]),
        make_step(0x304, 0x308, "MOVE.L D0,D1", [0; 8], [0; 8]),
    ];
    let d = Dump::build(steps);
    let rows = d.stack(0x304).expect("stack");
    for (i, row) in rows.iter().enumerate() {
        assert_eq!(row.level, i);
    }
    for w in rows.windows(2) {
        assert!(w[0].level <= w[1].level);
    }
    // the queried line comes last, its callers above it
    assert_eq!(rows.last().expect("rows").pc, 0x304);
    assert_eq!(rows.len(), 3);
    assert_eq!(rows[0].pc, 0x200);
    assert_eq!(rows[1].pc, 0x300);
}

#[test]
fn memlist_merges_addresses_within_gap() {
    // addresses 0x1000, 0x1050, 0x2000 with the 128-byte gap rule give
    // exactly two ranges
    let addresses = [0x1000, 0x1000, 0x1000, 0x1000, 0x1050, 0x1050, 0x2000, 0x2000];
    let steps = vec![make_step(0x100, 0x104, "NOP", [0; 8], addresses)];
    let d = Dump::build(steps);
    let cmds = d.dump_memlist_cmds(0x100, 0).expect("cmds");
    assert_eq!(cmds.len(), 2);
    assert_eq!(cmds[0].start, 0x1000);
    assert_eq!(cmds[0].lines, (0x1100 - 0x1000) / 16);
    assert_eq!(cmds[1].start, 0x2000);
    assert_eq!(cmds[1].lines, (0x2100 - 0x2000) / 16);
}

#[test]
fn ghidra_search_emits_text_and_wildcards() {
    let steps = vec![
        make_step(0x100, 0x104, "NOP", [0; 8], [0; 8]),
        make_step(0x104, 0x108, "MOVE", [0; 8], [0; 8]),
        make_step(0x10C, 0x110, "ADD", [0; 8], [0; 8]),
    ];
    let d = Dump::build(steps);
    let lines = d.ghidra_search(0x100, 2).expect("pattern");
    assert_eq!(lines.len(), 2);
    match &lines[0] {
        PatternLine::Text(t) => assert_eq!(t.as_slice(), b"MOVE"),
        _ => panic!("expected text"),
    }
    match &lines[1] {
        PatternLine::Wildcards(w) => assert_eq!(*w, 4),
        _ => panic!("expected wildcards"),
    }
}

#[test]
fn ghidra_search_aborts_on_backward_jump() {
    let steps = vec![
        make_step(0x100, 0x104, "NOP", [0; 8], [0; 8]),
        make_step(0x0FC, 0x100, "NOP", [0; 8], [0; 8]),
    ];
    let d = Dump::build(steps);
    match d.ghidra_search(0x100, 1) {
        Err(DumpError::NonMonotonicTrace) => {}
        _ => panic!("expected NonMonotonicTrace"),
    }
}

#[test]
fn ghidra_search_aborts_on_excessive_gap() {
    let steps = vec![
        make_step(0x100, 0x104, "NOP", [0; 8], [0; 8]),
        make_step(0x204, 0x208, "NOP", [0; 8], [0; 8]),
    ];
    let d = Dump::build(steps);
    match d.ghidra_search(0x100, 1) {
        Err(DumpError::ExcessiveGap) => {}
        _ => panic!("expected ExcessiveGap"),
    }
}

#[test]
fn calls_reports_depth_changes() {
    let steps = vec![
        make_step(0x100, 0x104, "BSR $200", [0; 8], [0; 8]),
        make_step(0x200, 0x204, "NOP", [0; 8], [0; 8]),
        make_step(0x204, 0x208, "RTS", [0; 8], [0; 8]),
        make_step(0x104, 0x108, "NOP", [0; 8], [0; 8]),
    ];
    let d = Dump::build(steps);
    let rows = d.calls();
    assert_eq!(rows.len(), 2);
    assert_eq!(rows[0].index, 0);
    assert_eq!(rows[0].pc, 0x100);
    assert_eq!(rows[0].depth, 0);
    assert_eq!(rows[0].delta, 1);
    assert_eq!(rows[1].index, 2);
    assert_eq!(rows[1].depth, 1);
    assert_eq!(rows[1].delta, -1);
}

#[test]
fn inspect_reports_changes_with_nonnegative_depth() {
    let steps = vec![
        make_step(0x100, 0x104, "RTS", [0; 8], [0; 8]),
        make_step(0x104, 0x108, "MOVE.L D0,D1", [1, 0, 0, 0, 0, 0, 0, 0], [0; 8]),
        make_step(0x108, 0x10C, "NOP", [1, 1, 0, 0, 0, 0, 0, 0], [0; 8]),
    ];
    let d = Dump::build(steps);
    let mem = MemDump::new();
    let rows = d.inspect(&mem, 0x108, 10).expect("inspect");
    assert_eq!(rows.len(), 2);
    for row in rows.iter() {
        assert!(row.depth >= 0);
    }
    // the final row carries the D1 change
    let last = rows.last().expect("rows");
    assert_eq!(last.pc, 0x108);
    assert_eq!(last.reg_changes.len(), 1);
    assert_eq!(last.reg_changes[0].reg, 1);
    assert_eq!(last.reg_changes[0].old_val, 0);
    assert_eq!(last.reg_changes[0].new_val, 1);
}

#[test]
fn parse_trace_reads_consecutive_records() {
    let a = plain_step(0x100, 0x104);
    let b = plain_step(0x104, 0x108);
    let mut lines: Vec<Vec<u8>> = Vec::new();
    for l in a.to_dump_lines() {
        lines.push(l);
    }
    for l in b.to_dump_lines() {
        lines.push(l);
    }
    let steps = Dump::parse_trace(&lines);
    assert_eq!(steps.len(), 2);
    assert_eq!(steps[0].pc, 0x100);
    assert_eq!(steps[1].pc, 0x104);
}

#[test]
fn from_parts_validates_index_shape() {
    let steps = vec![plain_step(0x100, 0x104), plain_step(0x200, 0x204)];
    let ok = Dump::from_parts(steps, vec![(0x100, 0), (0x200, 1)]);
    assert!(ok.is_some());
    let steps = vec![plain_step(0x100, 0x104)];
    // index out of range
    assert!(Dump::from_parts(steps, vec![(0x100, 5)]).is_none());
    let steps = vec![plain_step(0x100, 0x104), plain_step(0x200, 0x204)];
    // keys out of order
    assert!(Dump::from_parts(steps, vec![(0x200, 0), (0x100, 1)]).is_none());
}

#[test]
fn size_class_for_takes_widest_value() {
    assert_eq!(dump_analyzer::dump::size_class_for(&vec![5, 200]), 1);
    assert_eq!(dump_analyzer::dump::size_class_for(&vec![5, 0x1234]), 2);
    assert_eq!(dump_analyzer::dump::size_class_for(&vec![5, 0xFF01]), 4);
    assert_eq!(dump_analyzer::dump::size_class_for(&Vec::new()), 1);
}

#[test]
fn parser_accepts_uppercase_hex() {
    let step = plain_step(0x1234, 0x1238);
    let mut lines = step.to_dump_lines();
    // overwrite the USP field with uppercase digits
    lines[4][5..13].copy_from_slice(b"DEADBEEF");
    let (parsed, _) = CpuStep::from_dump(&lines, 0).expect("parse failed");
    assert_eq!(parsed.usp, 0xDEADBEEF);
}

#[test]
fn inspect_resolves_named_address_registers() {
    let mut address = [0u32; 8];
    address[1] = 0x1000;
    let steps = vec![
        make_step(0x100, 0x104, "NOP", [0; 8], [0; 8]),
        make_step(0x104, 0x108, "ADD (A1),D0", [0; 8], address),
    ];
    let d = Dump::build(steps);
    let mut mem = MemDump::new();
    mem.push_part(0x1000, vec![0xAA, 0xBB, 0xCC, 0xDD, 0xEE]);
    let rows = d.inspect(&mem, 0x104, 5).expect("inspect");
    let last = rows.last().expect("rows");
    assert_eq!(last.mem_notes.len(), 1);
    assert_eq!(last.mem_notes[0].reg, 1);
    assert_eq!(last.mem_notes[0].addr, 0x1000);
    match &last.mem_notes[0].mem {
        dump_analyzer::memdump::MemAt::Found(a, bytes) => {
            assert_eq!(*a, 0x1000);
            assert_eq!(bytes, &vec![0xAA, 0xBB, 0xCC, 0xDD]);
        }
        _ => panic!("expected found"),
    }
}
