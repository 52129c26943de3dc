use dump_analyzer::memdump::{AssetFile, MemAt, MemDump};
use dump_analyzer::utils::{FormatHelper, GhidraFun, GhidraInfo, Visibility};

fn region(start: u32, data: Vec<u8>) -> MemDump {
    let mut m = MemDump::new();
    m.push_part(start, data);
    m
}

#[test]
fn get_mem_at_unknown_outside_regions() {
    let m = region(0x1000, vec![0xAB; 16]);
    match m.get_mem_at(0x0FFF, 4) {
        MemAt::Unknown(a) => assert_eq!(a, 0x0FFF),
        _ => panic!("expected unknown"),
    }
    match m.get_mem_at(0x1010, 4) {
        MemAt::Unknown(a) => assert_eq!(a, 0x1010),
        _ => panic!("expected unknown"),
    }
}

#[test]
fn get_mem_at_starts_at_requested_address() {
    let data: Vec<u8> = (0u8..16).collect();
    let m = region(0x1000, data);
    match m.get_mem_at(0x1005, 4) {
        MemAt::Found(a, bytes) => {
            assert_eq!(a, 0x1005);
            // the first byte is the byte stored for the exact address
            assert_eq!(bytes, vec![5, 6, 7, 8]);
        }
        _ => panic!("expected found"),
    }
    // short count still yields at least four bytes
    match m.get_mem_at(0x1000, 1) {
        MemAt::Found(_, bytes) => assert_eq!(bytes, vec![0, 1, 2, 3]),
        _ => panic!("expected found"),
    }
    // the window clips at the region end
    match m.get_mem_at(0x100E, 8) {
        MemAt::Found(_, bytes) => assert_eq!(bytes, vec![14, 15]),
        _ => panic!("expected found"),
    }
}

fn text_row(addr: u32, bytes: [u8; 16]) -> Vec<u8> {
    let mut s = format!("{:08x}", addr);
    for (i, b) in bytes.iter().enumerate() {
        if i % 2 == 0 {
            s.push(' ');
        }
        s.push_str(&format!("{:02x}", b));
    }
    s.into_bytes()
}

#[test]
fn text_load_merges_consecutive_rows() {
    let lines = vec![
        text_row(0x1000, [1; 16]),
        text_row(0x1010, [2; 16]),
        text_row(0x2000, [3; 16]),
        b"short".to_vec(),
        text_row(0x3000, [4; 16]),
    ];
    let m = MemDump::load_from_text(&lines);
    // rows one and two merge; the large gap opens a second region; the
    // short line stops the load before the last row
    assert_eq!(m.parts.len(), 2);
    assert_eq!(m.parts[0].from, 0x1000);
    assert_eq!(m.parts[0].to, 0x1020);
    assert_eq!(m.parts[0].data.len(), 32);
    assert_eq!(m.parts[1].from, 0x2000);
    assert_eq!(m.parts[1].to, 0x2010);
    match m.get_mem_at(0x1011, 4) {
        MemAt::Found(_, bytes) => assert_eq!(bytes, vec![2, 2, 2, 2]),
        _ => panic!("expected found"),
    }
}

#[test]
fn check_entropy_needs_eight_nonzero_bytes() {
    let mut data = vec![0u8; 16];
    for i in 0..7 {
        data[i] = 1;
    }
    assert!(!MemDump::check_entropy(&data));
    data[7] = 1;
    assert!(MemDump::check_entropy(&data));
}

#[test]
fn map_data_finds_two_nonoverlapping_occurrences() {
    // a 12-byte, mostly-non-zero pattern placed twice in one region
    let pattern: Vec<u8> = vec![9, 8, 7, 6, 5, 4, 3, 2, 1, 9, 8, 7];
    let mut content = vec![0u8; 4];
    content.extend_from_slice(&pattern);
    content.extend_from_slice(&[0, 0, 0]);
    content.extend_from_slice(&pattern);
    content.push(0);
    let m = region(0x8000, content);
    let files = vec![AssetFile { source: "assets\tsprite".to_string(), data: pattern.clone() }];
    let rows = m.map_data(&files, 0x1000);
    assert_eq!(rows.len(), 2);
    assert_eq!(rows[0].mem_addr, 0x8004);
    assert_eq!(rows[0].translated, 0x7004);
    assert_eq!(rows[0].size, 12);
    assert_eq!(rows[1].mem_addr, 0x8004 + 12 + 3);
    assert_eq!(rows[1].source, "assets\tsprite");
}

#[test]
fn map_data_skips_low_entropy_assets() {
    // only six non-zero bytes: filtered before any search
    let weak: Vec<u8> = vec![1, 2, 3, 4, 5, 6, 0, 0, 0, 0, 0, 0];
    let mut content = vec![0u8; 4];
    content.extend_from_slice(&weak);
    let m = region(0x8000, content);
    let files = vec![AssetFile { source: "assets\tweak".to_string(), data: weak.clone() }];
    let rows = m.map_data(&files, 0);
    assert_eq!(rows.len(), 0);
}

#[test]
fn diff_only_two_pass_scenario() {
    // group A: S1 and S2 identical; group B: S3 differing at 0x10 and 0x20
    let mut base = vec![0u8; 0x30];
    for i in 0..0x30 {
        base[i] = i as u8;
    }
    let s1 = region(0, base.clone());
    let s2 = region(0, base.clone());
    let mut other = base.clone();
    other[0x10] = 0xEE;
    other[0x20] = 0xFF;
    let s3 = region(0, other);

    // pass one, across groups: the candidate set of distinguishing addresses
    let candidates = s1.diff_only(&s3, None, false);
    assert_eq!(candidates, vec![0x10, 0x20]);

    // pass two, within group A: no internal variance, nothing removed
    let settled = s1.diff_only(&s2, Some(&candidates), true);
    assert_eq!(settled, vec![0x10, 0x20]);
}

#[test]
fn diff_only_within_group_removes_noise() {
    let s1 = region(0, vec![1, 2, 3, 4]);
    let s2 = region(0, vec![1, 9, 3, 4]);
    let candidates = vec![1u32, 3];
    let settled = s1.diff_only(&s2, Some(&candidates), true);
    // address 1 varies inside the group and drops out
    assert_eq!(settled, vec![3]);
}

#[test]
fn diff_groups_runs_both_passes() {
    let mut base = vec![0u8; 0x30];
    for i in 0..0x30 {
        base[i] = i as u8;
    }
    let mut other = base.clone();
    other[0x10] = 0xEE;
    other[0x20] = 0xFF;
    let groups = vec![
        vec![region(0, base.clone()), region(0, base.clone())],
        vec![region(0, other)],
    ];
    let result = dump_analyzer::memdump::diff_groups(&groups).expect("result");
    assert_eq!(result, vec![0x10, 0x20]);
}

#[test]
fn diff_groups_without_pairs_gives_none() {
    let groups = vec![vec![region(0, vec![1, 2, 3])]];
    assert!(dump_analyzer::memdump::diff_groups(&groups).is_none());
}

#[test]
fn with_offset_subtracts_or_wraps() {
    let mut fmt = FormatHelper::simple(true);
    fmt.offset_mod = 0x1000;
    assert_eq!(fmt.with_offset(0x1234), 0x234);
    // below the offset the pc wraps into the top of the address space
    assert_eq!(fmt.with_offset(0x0800), 0xF0000800);
}

#[test]
fn simple_format_helper_defaults() {
    let fmt = FormatHelper::simple(false);
    assert!(!fmt.compact);
    assert!(!fmt.colors);
    assert_eq!(fmt.indent, 2);
    assert_eq!(fmt.offset_mod, 0);
    assert!(fmt.print_both_offsets);
    assert!(fmt.func_names == Visibility::Brief);
}

#[test]
fn name_for_resolves_by_range() {
    let mut info = GhidraInfo::new(0);
    info.insert_fun(GhidraFun { start: 0x100, end: 0x1FF, name: "init".to_string() });
    info.insert_fun(GhidraFun { start: 0x400, end: 0x4FF, name: "draw".to_string() });
    assert_eq!(info.name_for(0x150).expect("hit"), "init");
    assert_eq!(info.name_for(0x400).expect("hit"), "draw");
    assert_eq!(info.name_for(0x4FF).expect("hit"), "draw");
    // between ranges: the closest earlier function does not reach this far
    assert!(info.name_for(0x300).is_none());
    // before every function
    assert!(info.name_for(0x50).is_none());
}

#[test]
fn name_for_applies_wrapping_offset() {
    let mut info = GhidraInfo::new(0x1000);
    info.insert_fun(GhidraFun { start: 0x100, end: 0x1FF, name: "main".to_string() });
    assert_eq!(info.name_for(0x1150).expect("hit"), "main");
    assert!(info.name_for(0x150).is_none());
}

#[test]
fn ghidra_fun_new_is_empty() {
    let f = GhidraFun::new();
    assert_eq!(f.start, 0);
    assert_eq!(f.end, 0);
    assert_eq!(f.name, "");
}
