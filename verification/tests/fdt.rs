use lib::fdt::{
    Fdt, FdtError, MalformedStructure, Node, ParseError, FDT_BEGIN_NODE, FDT_END, FDT_END_NODE, FDT_MAGIC, FDT_NOP, FDT_PROP,
};

fn push_u32(out: &mut Vec<u8>, v: u32) {
    out.extend_from_slice(&v.to_be_bytes());
}

fn pad4(out: &mut Vec<u8>) {
    while out.len() % 4 != 0 {
        out.push(0);
    }
}

fn begin(out: &mut Vec<u8>, name: &str) {
    push_u32(out, FDT_BEGIN_NODE);
    out.extend_from_slice(name.as_bytes());
    out.push(0);
    pad4(out);
}

fn prop(out: &mut Vec<u8>, name_offset: u32, data: &[u8]) {
    push_u32(out, FDT_PROP);
    push_u32(out, data.len() as u32);
    push_u32(out, name_offset);
    out.extend_from_slice(data);
    pad4(out);
}

fn end(out: &mut Vec<u8>) {
    push_u32(out, FDT_END_NODE);
}

// Offsets of the names in the strings block built by `strings_block`.
const ADDRESS_CELLS: u32 = 0;
const DEVICE_TYPE: u32 = 15;
const REG: u32 = 27;

fn strings_block() -> Vec<u8> {
    b"#address-cells\0device_type\0reg\0".to_vec()
}

fn struct_block() -> Vec<u8> {
    let mut s = Vec::new();
    begin(&mut s, "");
    prop(&mut s, ADDRESS_CELLS, &[0, 0, 0, 2]);
    begin(&mut s, "cpus");
    prop(&mut s, ADDRESS_CELLS, &[0, 0, 0, 1]);
    begin(&mut s, "cpu@0");
    prop(&mut s, DEVICE_TYPE, b"cpu\0");
    end(&mut s);
    end(&mut s);
    push_u32(&mut s, FDT_NOP);
    begin(&mut s, "memory@80000000");
    prop(&mut s, DEVICE_TYPE, b"memory\0");
    prop(&mut s, REG, &[0, 0, 0, 0, 0x80, 0, 0, 0, 0, 0, 0, 0, 0x08, 0, 0, 0]);
    end(&mut s);
    prop(&mut s, REG, &[1, 2, 3]);
    end(&mut s);
    push_u32(&mut s, FDT_END);
    s
}

fn blob() -> Vec<u8> {
    let rsvmap = vec![0u8; 16];
    let structs = struct_block();
    let strings = strings_block();
    let off_mem_rsvmap = 40u32;
    let off_dt_struct = off_mem_rsvmap + rsvmap.len() as u32;
    let off_dt_strings = off_dt_struct + structs.len() as u32;
    let totalsize = off_dt_strings + strings.len() as u32;
    let mut b = Vec::new();
    push_u32(&mut b, FDT_MAGIC);
    push_u32(&mut b, totalsize);
    push_u32(&mut b, off_dt_struct);
    push_u32(&mut b, off_dt_strings);
    push_u32(&mut b, off_mem_rsvmap);
    push_u32(&mut b, 17);
    push_u32(&mut b, 16);
    push_u32(&mut b, 0);
    push_u32(&mut b, strings.len() as u32);
    push_u32(&mut b, structs.len() as u32);
    b.extend_from_slice(&rsvmap);
    b.extend_from_slice(&structs);
    b.extend_from_slice(&strings);
    b
}

#[test]
fn header_fields_are_read_big_endian() {
    let b = blob();
    let fdt = Fdt::from_bytes(&b).unwrap();
    let h = fdt.header();
    assert_eq!(h.magic.get(), 0xd00d_feed);
    assert_eq!(h.totalsize.get() as usize, b.len());
    assert_eq!(h.off_mem_rsvmap.get(), 40);
    assert_eq!(h.off_dt_struct.get(), 56);
    assert_eq!(h.version.get(), 17);
    assert_eq!(h.last_comp_version.get(), 16);
    assert_eq!(h.boot_cpuid_phys.get(), 0);
    assert_eq!(h.size_dt_strings.get() as usize, strings_block().len());
    assert_eq!(h.size_dt_struct.get() as usize, struct_block().len());
}

#[test]
fn blob_is_cut_to_totalsize() {
    let mut b = blob();
    let total = b.len();
    b.extend_from_slice(&[0xff; 12]);
    let fdt = Fdt::from_bytes(&b).unwrap();
    assert_eq!(fdt.header().totalsize.get() as usize, total);
    // The strings block is still found where the header says.
    let root = fdt.root();
    let mut props = root.properties();
    let p = props.next().unwrap();
    assert_eq!(fdt.get_name(&p.name_offset), Ok("#address-cells"));
}

#[test]
fn wrong_magic_is_refused() {
    let mut b = blob();
    b[0] = 0xde;
    b[1] = 0xad;
    b[2] = 0xbe;
    b[3] = 0xef;
    match Fdt::from_bytes(&b) {
        Err(FdtError::MagicInvalid { expected, got }) => {
            assert_eq!(expected.get(), FDT_MAGIC);
            assert_eq!(got.get(), 0xdead_beef);
        }
        _ => panic!("a blob with a wrong magic value was accepted"),
    }
}

#[test]
fn valid_magic_is_fdt_magic() {
    assert_eq!(Fdt::valid_magic().get(), 0xd00d_feed);
}

#[test]
fn root_properties_skip_nested_nodes() {
    let b = blob();
    let fdt = Fdt::from_bytes(&b).unwrap();
    let root = fdt.root();
    let mut props = root.properties();
    let first = props.next().unwrap();
    assert_eq!(first.data, &[0u8, 0, 0, 2][..]);
    assert_eq!(fdt.get_name(&first.name_offset), Ok("#address-cells"));
    let second = props.next().unwrap();
    assert_eq!(second.data, &[1u8, 2, 3][..]);
    assert_eq!(fdt.get_name(&second.name_offset), Ok("reg"));
    assert!(props.next().is_none());
}

#[test]
fn find_child_by_name() {
    let b = blob();
    let fdt = Fdt::from_bytes(&b).unwrap();
    let root = fdt.root();
    let cpus = root.find("cpus").unwrap();
    let mut props = cpus.properties();
    let p = props.next().unwrap();
    assert_eq!(p.data, &[0u8, 0, 0, 1][..]);
    assert!(props.next().is_none());
}

#[test]
fn find_ignores_unit_address_and_slashes() {
    let b = blob();
    let fdt = Fdt::from_bytes(&b).unwrap();
    let root = fdt.root();
    for target in ["memory", "/memory", "memory/", "//memory//"] {
        let memory = root.find(target).unwrap();
        let mut props = memory.properties();
        let device_type = props.next().unwrap();
        assert_eq!(fdt.get_name(&device_type.name_offset), Ok("device_type"));
        assert_eq!(device_type.data, b"memory\0");
        let reg = props.next().unwrap();
        assert_eq!(fdt.get_name(&reg.name_offset), Ok("reg"));
        assert_eq!(reg.data.len(), 16);
        assert!(props.next().is_none());
    }
}

#[test]
fn find_empty_target_is_the_node_itself() {
    let b = blob();
    let fdt = Fdt::from_bytes(&b).unwrap();
    let root = fdt.root();
    for target in ["", "/", "///"] {
        let same = root.find(target).unwrap();
        let mut props = same.properties();
        assert_eq!(props.next().unwrap().data, &[0u8, 0, 0, 2][..]);
    }
}

#[test]
fn find_only_looks_one_level_deep() {
    let b = blob();
    let fdt = Fdt::from_bytes(&b).unwrap();
    let root = fdt.root();
    assert!(root.find("cpu").is_none());
    assert!(root.find("cpu@0").is_none());
    assert!(root.find("memory@80000000").is_none());
    assert!(root.find("nothing").is_none());
}

#[test]
fn find_from_a_child_node() {
    let b = blob();
    let fdt = Fdt::from_bytes(&b).unwrap();
    let root = fdt.root();
    let cpus = root.find("cpus").unwrap();
    let cpu = cpus.find("cpu").unwrap();
    let mut props = cpu.properties();
    let device_type = props.next().unwrap();
    assert_eq!(device_type.data, b"cpu\0");
    assert_eq!(fdt.get_name(&device_type.name_offset), Ok("device_type"));
    assert!(props.next().is_none());
    assert!(cpus.find("memory").is_none());
}

#[test]
fn find_grandchild_through_child() {
    // root -> a -> b, where b has one property.
    let blob: [u8; 56] = [
        0, 0, 0, 1, 0, 0, 0, 0, 0, 0, 0, 1, 0x61, 0, 0, 0, 0, 0, 0, 1, 0x62, 0, 0, 0, 0, 0, 0, 3,
        0, 0, 0, 4, 0, 0, 0, 7, 1, 2, 3, 4, 0, 0, 0, 2, 0, 0, 0, 2, 0, 0, 0, 2, 0, 0, 0, 9,
    ];
    let root = Node::new(&blob);
    let a = root.find("a").unwrap();
    let b = a.find("b").unwrap();
    let mut props = b.properties();
    let p = props.next().unwrap();
    assert_eq!(p.data, &[1u8, 2, 3, 4][..]);
    assert_eq!(format!("{:?}", p.name_offset), "NameOffset(7)");
    assert!(props.next().is_none());
    assert!(a.find("a").is_none());
}

#[test]
fn find_does_not_look_into_siblings() {
    // root -> {c, d -> x}
    let blob: [u8; 52] = [
        0, 0, 0, 1, 0, 0, 0, 0, 0, 0, 0, 1, 0x63, 0, 0, 0, 0, 0, 0, 2, 0, 0, 0, 1, 0x64, 0, 0, 0,
        0, 0, 0, 1, 0x78, 0, 0, 0, 0, 0, 0, 2, 0, 0, 0, 2, 0, 0, 0, 2, 0, 0, 0, 9,
    ];
    let root = Node::new(&blob);
    let c = root.find("c").unwrap();
    assert!(c.find("x").is_none());
    let d = root.find("d").unwrap();
    assert!(d.find("x").is_some());
    assert!(root.find("x").is_none());
}

#[test]
fn find_stops_at_a_name_without_nul() {
    let mut s = Vec::new();
    begin(&mut s, "");
    push_u32(&mut s, FDT_BEGIN_NODE);
    s.extend_from_slice(b"abcd");
    let node = Node::new(&s);
    assert!(node.find("abcd").is_none());
}

#[test]
fn find_stops_at_a_name_that_is_not_utf8() {
    let mut s = Vec::new();
    begin(&mut s, "");
    push_u32(&mut s, FDT_BEGIN_NODE);
    s.extend_from_slice(&[0xff, 0xfe, 0, 0]);
    push_u32(&mut s, FDT_END_NODE);
    push_u32(&mut s, FDT_END_NODE);
    push_u32(&mut s, FDT_END);
    let node = Node::new(&s);
    assert!(node.find("x").is_none());
}

#[test]
fn get_name_errors() {
    let b = blob();
    let fdt = Fdt::from_bytes(&b).unwrap();
    let root = fdt.root();
    let mut props = root.properties();
    let p = props.next().unwrap();
    assert_eq!(format!("{:?}", p.name_offset), "NameOffset(0)");
    // A name offset can only be had from a property, so build a blob whose
    // properties point at the end of the strings block and past it.
    let mut s = Vec::new();
    begin(&mut s, "");
    let strings_len = strings_block().len() as u32;
    prop(&mut s, strings_len, &[]);
    prop(&mut s, strings_len + 1, &[]);
    end(&mut s);
    push_u32(&mut s, FDT_END);
    let mut b2 = blob();
    let off_struct = 56usize;
    let old_struct_len = struct_block().len();
    let strings = strings_block();
    b2.truncate(off_struct);
    b2.extend_from_slice(&s);
    let off_strings = b2.len();
    b2.extend_from_slice(&strings);
    let total = b2.len() as u32;
    b2[4..8].copy_from_slice(&total.to_be_bytes());
    b2[12..16].copy_from_slice(&(off_strings as u32).to_be_bytes());
    b2[36..40].copy_from_slice(&(s.len() as u32).to_be_bytes());
    assert_ne!(old_struct_len, s.len());
    let fdt2 = Fdt::from_bytes(&b2).unwrap();
    let root2 = fdt2.root();
    let mut props2 = root2.properties();
    let at_end = props2.next().unwrap();
    assert_eq!(fdt2.get_name(&at_end.name_offset), Err(ParseError::NoNullByte));
    let past_end = props2.next().unwrap();
    assert_eq!(fdt2.get_name(&past_end.name_offset), Err(ParseError::StringOutOfBounds));
    assert!(props2.next().is_none());
}

#[test]
fn get_name_rejects_invalid_utf8() {
    let mut b = blob();
    let off_strings = b.len() - strings_block().len();
    // Corrupt the first name.
    b[off_strings] = 0xc3;
    b[off_strings + 1] = 0x28;
    let fdt = Fdt::from_bytes(&b).unwrap();
    let root = fdt.root();
    let mut props = root.properties();
    let p = props.next().unwrap();
    assert_eq!(fdt.get_name(&p.name_offset), Err(ParseError::InvalidUtf8));
}

#[test]
fn properties_stop_at_end_token() {
    let mut s = Vec::new();
    begin(&mut s, "");
    prop(&mut s, 0, &[9]);
    push_u32(&mut s, FDT_END);
    let node = Node::new(&s);
    let mut props = node.properties();
    assert_eq!(props.next().unwrap().data, &[9u8][..]);
    assert!(props.next().is_none());
}

#[test]
fn checked_search_reports_malformed_blocks() {
    // An unknown token inside the node.
    let mut s = Vec::new();
    begin(&mut s, "");
    push_u32(&mut s, 7);
    push_u32(&mut s, FDT_END_NODE);
    push_u32(&mut s, FDT_END);
    let node = Node::new(&s);
    assert!(matches!(node.try_find("x"), Err(MalformedStructure)));
    let mut props = node.properties();
    assert!(matches!(props.try_next(), Err(MalformedStructure)));
    // The block ends before the node does.
    let mut t = Vec::new();
    begin(&mut t, "");
    prop(&mut t, 0, &[1, 2]);
    let node = Node::new(&t);
    assert!(matches!(node.try_find("x"), Err(MalformedStructure)));
    let mut props = node.properties();
    assert_eq!(props.try_next().unwrap().unwrap().data, &[1u8, 2][..]);
    assert!(matches!(props.try_next(), Err(MalformedStructure)));
    // A property whose length runs past the block.
    let mut u = Vec::new();
    begin(&mut u, "");
    push_u32(&mut u, FDT_PROP);
    push_u32(&mut u, 100);
    push_u32(&mut u, 0);
    let node = Node::new(&u);
    assert!(matches!(node.properties().try_next(), Err(MalformedStructure)));
    // An empty target needs no walk.
    assert!(matches!(node.try_find("/"), Ok(Some(_))));
}

#[test]
fn checked_search_agrees_on_well_formed_blocks() {
    let b = blob();
    let fdt = Fdt::from_bytes(&b).unwrap();
    let root = fdt.root();
    assert!(root.try_find("cpus").unwrap().is_some());
    assert!(root.try_find("cpu").unwrap().is_none());
    let memory = root.try_find("memory").unwrap().unwrap();
    let mut props = memory.properties();
    assert_eq!(props.try_next().unwrap().unwrap().data, b"memory\0");
    assert_eq!(props.try_next().unwrap().unwrap().data.len(), 16);
    assert!(props.try_next().unwrap().is_none());
}
