use kstorage::dtb::{
    fdt_parse_header, find_rsdp, parse_cpus, parse_memory, timebase_hz, walk_dtb,
    walk_dtb_prop_raw, MemoryRegion, MemoryRegionKind,
};

/// A blob under construction.
struct Blob {
    body: Vec<u8>,
    strings: Vec<u8>,
}

impl Blob {
    fn new() -> Blob {
        Blob { body: Vec::new(), strings: Vec::new() }
    }

    fn word(&mut self, w: u32) {
        self.body.extend_from_slice(&w.to_be_bytes());
    }

    fn pad(&mut self) {
        while self.body.len() % 4 != 0 {
            self.body.push(0);
        }
    }

    fn begin(&mut self, name: &str) {
        self.word(1);
        self.body.extend_from_slice(name.as_bytes());
        self.body.push(0);
        self.pad();
    }

    fn end(&mut self) {
        self.word(2);
    }

    fn prop(&mut self, name: &str, value: &[u8]) {
        let at = self.strings.len() as u32;
        self.strings.extend_from_slice(name.as_bytes());
        self.strings.push(0);
        self.word(3);
        self.word(value.len() as u32);
        self.word(at);
        self.body.extend_from_slice(value);
        self.pad();
    }

    fn finish(mut self) -> Vec<u8> {
        self.word(9);
        let strings_at = 40 + self.body.len();
        let total = strings_at + self.strings.len();
        let mut out = Vec::new();
        for w in [0xD00D_FEEDu32, total as u32, 40, strings_at as u32, 0, 17, 16, 0, 0, 0] {
            out.extend_from_slice(&w.to_be_bytes());
        }
        out.extend_from_slice(&self.body);
        out.extend_from_slice(&self.strings);
        out
    }
}

fn cells(v: &[u32]) -> Vec<u8> {
    v.iter().flat_map(|w| w.to_be_bytes()).collect()
}

fn machine() -> Vec<u8> {
    let mut b = Blob::new();
    b.begin("");
    b.prop("#address-cells", &cells(&[2]));
    b.prop("#size-cells", &cells(&[1]));
    b.begin("chosen");
    b.prop("acpi-rsdp", &cells(&[0x1, 0x7FFE_0000]));
    b.end();
    b.begin("memory@80000000");
    b.prop("reg", &cells(&[0, 0x8000_0000, 0x8_0000, 0, 0x8008_0000, 0x1000_0000, 1, 0, 0]));
    b.end();
    b.begin("cpus");
    b.prop("timebase-frequency", &cells(&[10_000_000]));
    b.begin("cpu@0");
    b.prop("device_type", b"cpu\0");
    b.prop("reg", &cells(&[0]));
    b.prop("status", b"okay\0");
    b.end();
    b.begin("cpu@1");
    b.prop("device_type", b"cpu\0");
    b.prop("reg", &cells(&[1]));
    b.prop("status", b"disabled\0");
    b.end();
    b.begin("cpu@2");
    b.prop("device_type", b"cpu\0");
    b.prop("reg", &cells(&[2]));
    b.end();
    b.begin("cpu-map");
    b.end();
    b.end();
    b.end();
    b.finish()
}

#[test]
fn dtb_header() {
    let blob = machine();
    let h = fdt_parse_header(&blob).unwrap();
    assert_eq!(h.magic, 0xD00D_FEED);
    assert_eq!(h.total_size as usize, blob.len());
    assert_eq!(h.off_dt_struct, 40);
    let mut bad = blob.clone();
    bad[0] = 0;
    assert!(fdt_parse_header(&bad).is_none());
    assert!(fdt_parse_header(&[]).is_none());
}

#[test]
fn dtb_memory_regions() {
    assert_eq!(
        parse_memory(&machine()),
        vec![
            MemoryRegion { base: 0x8000_0000, size: 0x8_0000, kind: MemoryRegionKind::Reserved },
            MemoryRegion { base: 0x8008_0000, size: 0x1000_0000, kind: MemoryRegionKind::Usable },
        ]
    );
}

#[test]
fn dtb_memory_without_a_blob() {
    let m = parse_memory(&[]);
    assert_eq!(m.len(), 3);
    assert_eq!(
        m[0],
        MemoryRegion { base: 0x8005_0000, size: 0x0FFB_0000, kind: MemoryRegionKind::Usable }
    );
    assert_eq!(
        m[1],
        MemoryRegion { base: 0x0010_0000, size: 0x1000, kind: MemoryRegionKind::Reserved }
    );
    assert_eq!(
        m[2],
        MemoryRegion { base: 0x8000_0000, size: 0x5_0000, kind: MemoryRegionKind::Reserved }
    );
}

#[test]
fn dtb_processors() {
    assert_eq!(parse_cpus(&machine()), vec![(0, true), (1, false), (2, true)]);
    assert_eq!(parse_cpus(&[0; 64]), vec![]);
}

#[test]
fn dtb_status_is_okay_only() {
    let mut b = Blob::new();
    b.begin("");
    b.begin("cpus");
    b.begin("cpu@0");
    b.prop("device_type", b"cpu\0");
    b.prop("reg", &cells(&[7]));
    b.prop("status", b"other\0");
    b.end();
    b.end();
    b.end();
    assert_eq!(parse_cpus(&b.finish()), vec![(7, false)]);
}

#[test]
fn dtb_time_base() {
    assert_eq!(timebase_hz(&machine()), 10_000_000);
    assert_eq!(timebase_hz(&[]), 0);
    let mut broken = Blob::new();
    broken.begin("");
    broken.begin("cpus");
    broken.prop("timebase-frequency", &cells(&[10_000_000]));
    for w in [3, 0x1_0000, 0] {
        broken.word(w);
    }
    assert_eq!(timebase_hz(&broken.finish()), 0);
}

#[test]
fn dtb_root_table() {
    assert_eq!(find_rsdp(&machine()), 0x1_7FFE_0000);
    assert_eq!(find_rsdp(&[]), 0);
}

#[test]
fn dtb_walks() {
    let blob = machine();
    let (pairs, whole) = walk_dtb(&blob, b"memory@80000000", b"reg");
    assert!(whole);
    assert_eq!(
        pairs,
        vec![
            (0x8000_0000, 0x8_0000),
            (0x8008_0000, 0x1000_0000),
            (0x1_0000_0000, 0)
        ]
    );
    let (props, whole) = walk_dtb_prop_raw(&blob, b"cpus", b"timebase-frequency");
    assert!(whole);
    assert_eq!(props.len(), 1);
    assert_eq!(props[0].1, 4);
    let at = props[0].0 as usize;
    assert_eq!(blob[at..at + 4], 10_000_000u32.to_be_bytes());
    let (none, whole) = walk_dtb(&blob, b"nothing", b"reg");
    assert!(none.is_empty());
    assert!(whole);
    let (none, whole) = walk_dtb(&blob[..20], b"memory", b"reg");
    assert!(none.is_empty());
    assert!(!whole);
}
