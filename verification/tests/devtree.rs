use kernel::devtree::path::{bytes_eq, split_once_bytes, split_once_str};
use kernel::devtree::{decode_dtb, try_decode_dtb, DeviceTree, Dtb};

fn push_u32(v: &mut Vec<u8>, x: u32) {
    v.extend_from_slice(&x.to_be_bytes());
}

fn pad4(v: &mut Vec<u8>) {
    while v.len() % 4 != 0 {
        v.push(0);
    }
}

fn begin_node(v: &mut Vec<u8>, name: &str) {
    push_u32(v, 1);
    v.extend_from_slice(name.as_bytes());
    v.push(0);
    pad4(v);
}

fn end_node(v: &mut Vec<u8>) {
    push_u32(v, 2);
}

fn prop(v: &mut Vec<u8>, name_off: u32, value: &[u8]) {
    push_u32(v, 3);
    push_u32(v, value.len() as u32);
    push_u32(v, name_off);
    v.extend_from_slice(value);
    pad4(v);
}

fn cells(words: &[u32]) -> Vec<u8> {
    let mut v = Vec::new();
    for w in words {
        push_u32(&mut v, *w);
    }
    v
}

// Offsets of the property names in the strings block.
const REG: u32 = 0;
const ADDRESS_CELLS: u32 = 4;
const SIZE_CELLS: u32 = 19;
const DEVICE_TYPE: u32 = 31;

fn strings() -> Vec<u8> {
    let mut s = Vec::new();
    for name in ["reg", "#address_cells", "#size_cells", "device_type"] {
        s.extend_from_slice(name.as_bytes());
        s.push(0);
    }
    s
}

fn structure() -> Vec<u8> {
    let mut v = Vec::new();
    push_u32(&mut v, 4);
    push_u32(&mut v, 4);
    begin_node(&mut v, "");
    begin_node(&mut v, "memory@80000000");
    prop(&mut v, DEVICE_TYPE, b"memory\0");
    prop(&mut v, REG, &cells(&[0, 0x8000_0000, 0, 0x0800_0000]));
    end_node(&mut v);
    begin_node(&mut v, "memory@100000000");
    prop(&mut v, REG, &cells(&[1, 0, 0, 0x1000_0000, 2, 0, 0, 0x1000]));
    end_node(&mut v);
    begin_node(&mut v, "cpus");
    begin_node(&mut v, "cpu@0");
    end_node(&mut v);
    begin_node(&mut v, "cpu@1");
    end_node(&mut v);
    end_node(&mut v);
    begin_node(&mut v, "soc");
    prop(&mut v, ADDRESS_CELLS, &cells(&[1]));
    prop(&mut v, SIZE_CELLS, &cells(&[1]));
    begin_node(&mut v, "uart@10000000");
    prop(&mut v, REG, &cells(&[0x1000_0000, 0x100]));
    end_node(&mut v);
    begin_node(&mut v, "plain");
    prop(&mut v, REG, &cells(&[0x2000_0000, 0x10]));
    end_node(&mut v);
    end_node(&mut v);
    begin_node(&mut v, "bad");
    prop(&mut v, ADDRESS_CELLS, &[0, 1]);
    begin_node(&mut v, "dev");
    prop(&mut v, REG, &cells(&[1, 2, 3, 4]));
    end_node(&mut v);
    end_node(&mut v);
    begin_node(&mut v, "odd");
    prop(&mut v, ADDRESS_CELLS, &cells(&[1]));
    prop(&mut v, SIZE_CELLS, &cells(&[1]));
    begin_node(&mut v, "dev");
    prop(&mut v, REG, &cells(&[1, 2, 3]));
    end_node(&mut v);
    begin_node(&mut v, "empty");
    prop(&mut v, REG, &[]);
    end_node(&mut v);
    end_node(&mut v);
    end_node(&mut v);
    push_u32(&mut v, 9);
    v
}

fn blob_with(version: u32, size_delta: i64) -> Vec<u8> {
    blob_of(structure(), version, size_delta)
}

fn blob_of(st: Vec<u8>, version: u32, size_delta: i64) -> Vec<u8> {
    let strs = strings();
    let rsv_off: u32 = 40;
    let rsv = cells(&[0, 0x8000_0000, 0, 0x1000, 0, 0, 0, 0]);
    let st_off = rsv_off + rsv.len() as u32;
    let str_off = st_off + st.len() as u32;
    let total = str_off + strs.len() as u32;
    let mut v = Vec::new();
    push_u32(&mut v, 0xd00d_feed);
    push_u32(&mut v, (total as i64 + size_delta) as u32);
    push_u32(&mut v, st_off);
    push_u32(&mut v, str_off);
    push_u32(&mut v, rsv_off);
    push_u32(&mut v, version);
    push_u32(&mut v, 16);
    push_u32(&mut v, 0);
    push_u32(&mut v, strs.len() as u32);
    push_u32(&mut v, st.len() as u32);
    v.extend_from_slice(&rsv);
    v.extend_from_slice(&st);
    v.extend_from_slice(&strs);
    assert_eq!(v.len(), total as usize);
    v
}

fn leak(v: Vec<u8>) -> &'static Dtb {
    let bytes: &'static [u8] = Box::leak(v.into_boxed_slice());
    Box::leak(Box::new(Dtb(bytes)))
}

fn tree() -> DeviceTree<'static> {
    decode_dtb(leak(blob_with(17, 0)))
}

#[test]
fn decode_accepts_a_well_formed_blob() {
    assert!(try_decode_dtb(leak(blob_with(17, 0))).is_some());
}

#[test]
fn decode_refuses_another_version() {
    assert!(try_decode_dtb(leak(blob_with(16, 0))).is_none());
}

#[test]
fn decode_refuses_a_wrong_total_size() {
    assert!(try_decode_dtb(leak(blob_with(17, 4))).is_none());
    assert!(try_decode_dtb(leak(blob_with(17, -4))).is_none());
}

#[test]
fn decode_refuses_a_short_blob() {
    assert!(try_decode_dtb(leak(vec![0xd0, 0x0d, 0xfe, 0xed])).is_none());
    assert!(try_decode_dtb(leak(Vec::new())).is_none());
}

#[test]
fn decode_refuses_a_structure_block_without_a_node() {
    let mut v = blob_with(17, 0);
    // Turn the first token after the leading no-ops into an end token.
    let st_off = u32::from_be_bytes([v[8], v[9], v[10], v[11]]) as usize;
    v[st_off + 11] = 9;
    assert!(try_decode_dtb(leak(v)).is_none());
}

#[test]
fn get_nodes_picks_every_child_with_the_unit_name() {
    let t = tree();
    let mems = t.get_nodes("/memory");
    assert_eq!(mems.len(), 2);
    assert_eq!(mems[0].name(), "memory@80000000");
    assert_eq!(mems[1].name(), "memory@100000000");
    for m in &mems {
        assert_eq!(m.unit_name(), "memory");
    }
    assert_eq!(mems[0].unit_addr(), Some("80000000"));
    assert_eq!(mems[1].unit_addr(), Some("100000000"));
}

#[test]
fn get_nodes_follows_a_path() {
    let t = tree();
    let cpus = t.get_nodes("/cpus/cpu");
    assert_eq!(cpus.len(), 2);
    assert_eq!(cpus[0].name(), "cpu@0");
    assert_eq!(cpus[1].unit_addr(), Some("1"));
    assert_eq!(t.get_nodes("/soc/uart").len(), 1);
    assert_eq!(t.get_nodes("/soc").len(), 1);
    assert!(t.get_nodes("/nothing").is_empty());
    assert!(t.get_nodes("/nothing/below").is_empty());
}

#[test]
fn node_without_unit_address() {
    let t = tree();
    let soc = t.get_nodes("/soc");
    assert_eq!(soc[0].name(), "soc");
    assert_eq!(soc[0].unit_name(), "soc");
    assert_eq!(soc[0].unit_addr(), None);
}

#[test]
fn get_childeren_of_a_node() {
    let t = tree();
    let soc = t.get_nodes("/soc");
    let plain = soc[0].get_childeren("plain");
    assert_eq!(plain.len(), 1);
    assert_eq!(plain[0].name(), "plain");
    assert_eq!(soc[0].childeren.len(), 2);
}

#[test]
fn regs_with_default_cells() {
    let t = tree();
    assert_eq!(
        t.regs_for_node("/memory", Some("80000000")),
        Some(vec![(0x8000_0000, 0x0800_0000)])
    );
    assert_eq!(
        t.regs_for_node("/memory", Some("100000000")),
        Some(vec![(0x1_0000_0000, 0x1000_0000), (0x2_0000_0000, 0x1000)])
    );
}

#[test]
fn regs_without_unit_address_need_the_whole_name() {
    let t = tree();
    assert_eq!(t.regs_for_node("/memory", None), None);
    assert_eq!(t.regs_for_node("/memory", Some("0")), None);
}

#[test]
fn regs_with_cells_from_the_parent() {
    let t = tree();
    assert_eq!(
        t.regs_for_node("/soc/uart", Some("10000000")),
        Some(vec![(0x1000_0000, 0x100)])
    );
    assert_eq!(t.regs_for_node("/soc/plain", None), Some(vec![(0x2000_0000, 0x10)]));
}

#[test]
fn regs_of_a_node_without_reg() {
    let t = tree();
    assert_eq!(t.regs_for_node("/cpus/cpu", Some("0")), None);
    assert_eq!(t.regs_for_node("/missing/node", None), None);
}

#[test]
fn try_regs_for_node_refuses_unreadable_cells() {
    let t = tree();
    assert_eq!(t.try_regs_for_node("/bad/dev", None), None);
    assert_eq!(t.try_regs_for_node("/odd/dev", None), None);
}

#[test]
fn try_regs_for_node_needs_a_leading_slash() {
    let t = tree();
    assert_eq!(t.try_regs_for_node("memory", Some("80000000")), None);
    assert_eq!(t.try_regs_for_node("", None), None);
}

#[test]
fn try_regs_for_node_gives_what_regs_for_node_gives() {
    let t = tree();
    assert_eq!(
        t.try_regs_for_node("/memory", Some("80000000")),
        Some(Some(vec![(0x8000_0000, 0x0800_0000)]))
    );
    assert_eq!(t.try_regs_for_node("/cpus/cpu", Some("0")), Some(None));
    assert_eq!(t.try_regs_for_node("/odd/empty", None), Some(Some(Vec::new())));
    assert_eq!(t.regs_for_node("/odd/empty", None), Some(Vec::new()));
}

#[test]
fn readable_cells() {
    let t = tree();
    assert!(t.get_nodes("/soc")[0].has_readable_cells());
    assert!(t.get_nodes("/memory")[0].has_readable_cells());
    assert!(!t.get_nodes("/bad")[0].has_readable_cells());
}

#[test]
fn address_size_cells_of_nodes() {
    let t = tree();
    let soc = t.get_nodes("/soc");
    assert_eq!(soc[0].address_size_cells(), (Some(1), Some(1)));
    let mems = t.get_nodes("/memory");
    assert_eq!(mems[0].address_size_cells(), (None, None));
}

#[test]
fn get_and_parse_property_applies_the_parser() {
    let t = tree();
    let mems = t.get_nodes("/memory");
    assert_eq!(mems[0].get_and_parse_property("reg", |b: &[u8]| b.len()), Some(16));
    assert_eq!(
        mems[0].get_and_parse_property("device_type", |b: &[u8]| b.to_vec()),
        Some(b"memory\0".to_vec())
    );
    assert_eq!(mems[0].get_and_parse_property("compatible", |b: &[u8]| b.len()), None);
}

#[test]
fn split_helpers() {
    assert_eq!(split_once_bytes(b"a/b/c", b'/'), Some((&b"a"[..], &b"b/c"[..])));
    assert_eq!(split_once_bytes(b"abc", b'/'), None);
    assert_eq!(split_once_str("cpu@0", b'@'), Some(("cpu", "0")));
    assert_eq!(split_once_str("@", b'@'), Some(("", "")));
    assert_eq!(split_once_str("cpus", b'@'), None);
    assert!(bytes_eq(b"abc", b"abc"));
    assert!(!bytes_eq(b"abc", b"abd"));
    assert!(!bytes_eq(b"abc", b"ab"));
}

#[test]
fn memory_regions_of_all_memory_nodes() {
    let t = tree();
    assert_eq!(
        t.memory_regions(),
        Some(vec![
            (0x8000_0000, 0x0800_0000),
            (0x1_0000_0000, 0x1000_0000),
            (0x2_0000_0000, 0x1000)
        ])
    );
}

#[test]
fn memory_regions_need_a_reg_on_every_memory_node() {
    let mut v = Vec::new();
    begin_node(&mut v, "");
    begin_node(&mut v, "memory");
    prop(&mut v, DEVICE_TYPE, b"memory\0");
    end_node(&mut v);
    end_node(&mut v);
    push_u32(&mut v, 9);
    let t = decode_dtb(leak(blob_of(v, 17, 0)));
    assert_eq!(t.get_nodes("/memory").len(), 1);
    assert_eq!(t.memory_regions(), None);
}

#[test]
fn memory_regions_of_a_tree_without_memory() {
    let mut v = Vec::new();
    begin_node(&mut v, "");
    end_node(&mut v);
    push_u32(&mut v, 9);
    let t = decode_dtb(leak(blob_of(v, 17, 0)));
    assert_eq!(t.memory_regions(), Some(Vec::new()));
}
