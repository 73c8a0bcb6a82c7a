//! Stores built byte by byte, read back through every layer.

use ost_mcp::mailbox::Mailbox;
use ost_mcp::ost::ltp::{bth_records, hid_parts, Hn, Pc, Tc};
use ost_mcp::ost::ndb::{bid_is_internal, bid_key, block_payload, inflate, looks_zlib, Pff};
use ost_mcp::ost::props::{pid, PT_BINARY, PT_BOOL, PT_I32, PT_OBJECT, PT_STRING8, PT_SYSTIME, PT_UNICODE};
use ost_mcp::ost::store::{
    make_nid, nid_index, nid_type, rtf_body, Store, NID_ATTACHMENT_TABLE, NID_MESSAGE_STORE,
    NID_RECIPIENT_TABLE, NID_ROOT_FOLDER,
};
use ost_mcp::ost::Error;
use ost_mcp::ost_adapter::OstMailbox;
use std::io::Write;

// ---- a file of blocks and nodes ----

struct File {
    ver: u16,
    blocks: Vec<(u64, Vec<u8>)>,
    nodes: Vec<(u32, u64, u64)>,
    next_bid: u64,
}

fn put(b: &mut [u8], o: usize, v: &[u8]) {
    b[o..o + v.len()].copy_from_slice(v);
}

/// A BTree page: entries, then the trailer that counts them.
fn page(ver: u16, entries: &[Vec<u8>], cb_ent: u8, level: u8) -> Vec<u8> {
    let (size, hdr) = if ver == 23 { (512, 488) } else { (4096, 4056) };
    let mut p = vec![0u8; size];
    for (i, e) in entries.iter().enumerate() {
        put(&mut p, i * cb_ent as usize, e);
    }
    if ver == 23 {
        p[hdr] = entries.len() as u8;
        p[hdr + 2] = cb_ent;
        p[hdr + 3] = level;
    } else {
        put(&mut p, hdr, &(entries.len() as u16).to_le_bytes());
        p[hdr + 4] = cb_ent;
        p[hdr + 5] = level;
    }
    p
}

/// Append a BTree of `entries` to `out` and return where its root is.
fn tree(ver: u16, out: &mut Vec<u8>, entries: &[Vec<u8>], cb_ent: u8) -> u64 {
    let per_page = (if ver == 23 { 488 } else { 4056 }) / cb_ent as usize;
    if entries.len() <= per_page {
        let at = out.len() as u64;
        out.extend(page(ver, entries, cb_ent, 0));
        return at;
    }
    let mut index = Vec::new();
    for chunk in entries.chunks(per_page) {
        let at = out.len() as u64;
        out.extend(page(ver, chunk, cb_ent, 0));
        let mut e = chunk[0][..8].to_vec();
        e.extend_from_slice(&0u64.to_le_bytes());
        e.extend_from_slice(&at.to_le_bytes());
        index.push(e);
    }
    let at = out.len() as u64;
    out.extend(page(ver, &index, 24, 1));
    at
}

impl File {
    fn new(ver: u16) -> File {
        File { ver, blocks: Vec::new(), nodes: Vec::new(), next_bid: 4 }
    }

    /// File a block of leaf data and return its bid.
    fn block(&mut self, data: Vec<u8>) -> u64 {
        let bid = self.next_bid;
        self.next_bid += 4;
        self.blocks.push((bid, data));
        bid
    }

    /// File an internal block and return its bid.
    fn internal(&mut self, data: Vec<u8>) -> u64 {
        let bid = self.next_bid + 2;
        self.next_bid += 4;
        self.blocks.push((bid, data));
        bid
    }

    fn node(&mut self, nid: u32, data: u64, sub: u64) {
        self.nodes.push((nid, data, sub));
    }

    /// A subnode leaf block.
    fn subnodes(&mut self, entries: &[(u32, u64, u64)]) -> u64 {
        let mut b = vec![0x02, 0];
        b.extend_from_slice(&(entries.len() as u16).to_le_bytes());
        b.extend_from_slice(&[0; 4]);
        for (nid, data, sub) in entries {
            b.extend_from_slice(&(*nid as u64).to_le_bytes());
            b.extend_from_slice(&data.to_le_bytes());
            b.extend_from_slice(&sub.to_le_bytes());
        }
        self.internal(b)
    }

    fn bytes(&self) -> Vec<u8> {
        let mut out = vec![0u8; 0x400];
        put(&mut out, 0, b"!BDN");
        let client: u16 = if self.ver == 23 { 0x4D53 } else { 0x4F53 };
        put(&mut out, 8, &client.to_le_bytes());
        put(&mut out, 10, &self.ver.to_le_bytes());
        let mut bbt = Vec::new();
        for (bid, data) in &self.blocks {
            let mut e = bid.to_le_bytes().to_vec();
            e.extend_from_slice(&(out.len() as u64).to_le_bytes());
            e.extend_from_slice(&(data.len() as u16).to_le_bytes());
            e.extend_from_slice(&2u16.to_le_bytes());
            e.extend_from_slice(&[0; 4]);
            out.extend_from_slice(data);
            bbt.push(e);
        }
        let mut nbt = Vec::new();
        for (nid, data, sub) in &self.nodes {
            let mut e = (*nid as u64).to_le_bytes().to_vec();
            e.extend_from_slice(&data.to_le_bytes());
            e.extend_from_slice(&sub.to_le_bytes());
            e.extend_from_slice(&[0; 8]);
            nbt.push(e);
        }
        let at = tree(self.ver, &mut out, &nbt, 32);
        put(&mut out, 0xE0, &at.to_le_bytes());
        let at = tree(self.ver, &mut out, &bbt, 24);
        put(&mut out, 0xF0, &at.to_le_bytes());
        out
    }
}

// ---- heaps, property contexts and table contexts ----

/// A heap of one block. Item `i` (from 1) has the HID `i << 5`.
fn heap(client_sig: u8, root: u32, items: &[Vec<u8>]) -> Vec<u8> {
    let mut b = vec![0, 0, 0xEC, client_sig];
    b.extend_from_slice(&root.to_le_bytes());
    b.extend_from_slice(&[0; 4]);
    let mut offsets = vec![b.len() as u16];
    for i in items {
        b.extend_from_slice(i);
        offsets.push(b.len() as u16);
    }
    if b.len() % 2 == 1 {
        b.push(0);
    }
    let map = b.len() as u16;
    put(&mut b, 0, &map.to_le_bytes());
    b.extend_from_slice(&(items.len() as u16).to_le_bytes());
    b.extend_from_slice(&[0, 0]);
    for o in offsets {
        b.extend_from_slice(&o.to_le_bytes());
    }
    b
}

enum Value {
    Inline(u32),
    Heap(Vec<u8>),
}

fn wide(s: &str) -> Vec<u8> {
    s.encode_utf16().flat_map(u16::to_le_bytes).collect()
}

fn text(s: &str) -> Value {
    Value::Heap(wide(s))
}

fn time(us: i64) -> Value {
    Value::Heap(filetime(us).to_le_bytes().to_vec())
}

fn filetime(us: i64) -> u64 {
    ((us + 11_644_473_600_000_000) * 10) as u64
}

fn pc(props: Vec<(u16, u16, Value)>) -> Vec<u8> {
    let mut items = vec![vec![0xB5, 2, 6, 0, 0x40, 0, 0, 0], Vec::new()];
    let mut records = Vec::new();
    for (id, ptype, v) in props {
        let raw = match v {
            Value::Inline(n) => n,
            Value::Heap(b) => {
                items.push(b);
                (items.len() as u32) << 5
            }
        };
        records.extend_from_slice(&id.to_le_bytes());
        records.extend_from_slice(&ptype.to_le_bytes());
        records.extend_from_slice(&raw.to_le_bytes());
    }
    items[1] = records;
    heap(0xBC, 0x20, &items)
}

enum Cell {
    Absent,
    /// Bytes in the slot that the existence bitmap says are not there.
    Stale(u32),
    Int(i32),
    Bool(bool),
    Time(i64),
    Heap(Vec<u8>),
}

/// A table: columns as (id, type, width), rows as (row id, cells).
fn tc(cols: &[(u16, u16, u8)], rows: Vec<(u32, Vec<Cell>)>) -> Vec<u8> {
    let mut at = 4u16;
    let mut places = Vec::new();
    for (_, _, width) in cols {
        places.push(at);
        at += *width as u16;
    }
    let ceb = at;
    let stride = ceb + (cols.len() as u16).div_ceil(8);
    let mut items: Vec<Vec<u8>> = vec![Vec::new(), Vec::new()];
    let mut matrix = Vec::new();
    for (id, cells) in rows {
        let mut row = vec![0u8; stride as usize];
        put(&mut row, 0, &id.to_le_bytes());
        for (k, c) in cells.into_iter().enumerate() {
            let place = places[k] as usize;
            let set = !matches!(c, Cell::Absent | Cell::Stale(_));
            match c {
                Cell::Absent => {}
                Cell::Stale(n) => put(&mut row, place, &n.to_le_bytes()),
                Cell::Int(n) => put(&mut row, place, &n.to_le_bytes()),
                Cell::Bool(b) => row[place] = b as u8,
                Cell::Time(us) => put(&mut row, place, &filetime(us).to_le_bytes()),
                Cell::Heap(b) => {
                    items.push(b);
                    put(&mut row, place, &((items.len() as u32) << 5).to_le_bytes());
                }
            }
            if set {
                row[ceb as usize + k / 8] |= 0x80 >> (k % 8);
            }
        }
        matrix.extend(row);
    }
    let mut info = vec![0x7C, cols.len() as u8];
    for n in [4, 4, ceb, stride] {
        info.extend_from_slice(&n.to_le_bytes());
    }
    info.extend_from_slice(&0u32.to_le_bytes());
    info.extend_from_slice(&(if matrix.is_empty() { 0u32 } else { 0x40 }).to_le_bytes());
    info.extend_from_slice(&0u32.to_le_bytes());
    for (k, (id, ptype, width)) in cols.iter().enumerate() {
        info.extend_from_slice(&(((*id as u32) << 16) | *ptype as u32).to_le_bytes());
        info.extend_from_slice(&places[k].to_le_bytes());
        info.push(*width);
        info.push(k as u8);
    }
    items[0] = info;
    items[1] = matrix;
    heap(0x7C, 0x20, &items)
}

fn one_off(name: &str, addr: &str) -> Vec<u8> {
    let mut b = vec![0u8; 4];
    b.extend_from_slice(&[
        0x81, 0x2B, 0x1F, 0xA4, 0xBE, 0xA3, 0x10, 0x19, 0x9D, 0x6E, 0x00, 0xDD, 0x01, 0x0F, 0x54, 0x02,
    ]);
    b.extend_from_slice(&[0, 0, 0, 0x80]);
    for s in [name, "SMTP", addr] {
        b.extend(wide(s));
        b.extend_from_slice(&[0, 0]);
    }
    b
}

fn zlib(data: &[u8]) -> Vec<u8> {
    let mut e = flate2::write::ZlibEncoder::new(Vec::new(), flate2::Compression::default());
    e.write_all(data).unwrap();
    e.finish().unwrap()
}

// ---- the store that most tests read ----

const INBOX: u32 = 0x8022;
const SENT: u32 = 0x8042;
const SEARCH: u32 = 0x8063;
const NESTED: u32 = 0x8082;
const MESSAGE: u32 = 0x0020_0024;
const PLAIN: u32 = 0x0020_0044;
const ATTACHMENT: u32 = 0x8025;
const EMBEDDED: u32 = 0x8045;
const BARE: u32 = 0x8065;
const LOST: u32 = 0x8085;

const FOLDER_COLS: [(u16, u16, u8); 4] = [
    (pid::DISPLAY_NAME, PT_UNICODE, 4),
    (pid::CONTENT_COUNT, PT_I32, 4),
    (pid::CONTENT_UNREAD, PT_I32, 4),
    (pid::SUBFOLDERS, PT_BOOL, 1),
];

const MESSAGE_COLS: [(u16, u16, u8); 7] = [
    (pid::SUBJECT, PT_UNICODE, 4),
    (pid::SENDER_ENTRY_ID, PT_BINARY, 4),
    (pid::MESSAGE_DELIVERY_TIME, PT_SYSTIME, 8),
    (pid::MESSAGE_SIZE, PT_I32, 4),
    (pid::MESSAGE_FLAGS, PT_I32, 4),
    (pid::MESSAGE_CLASS, PT_UNICODE, 4),
    (pid::SENDER_NAME, PT_UNICODE, 4),
];

fn folder(name: &str, items: i32, unread: i32, nested: bool) -> Vec<Cell> {
    vec![Cell::Heap(wide(name)), Cell::Int(items), Cell::Int(unread), Cell::Bool(nested)]
}

fn sample(ver: u16) -> Vec<u8> {
    let mut f = File::new(ver);
    let b = f.block(pc(vec![(pid::DISPLAY_NAME, PT_UNICODE, text("user@example.com"))]));
    f.node(NID_MESSAGE_STORE, b, 0);
    let b = f.block(pc(vec![(pid::DISPLAY_NAME, PT_UNICODE, text("Root - Mailbox"))]));
    f.node(NID_ROOT_FOLDER, b, 0);
    // The root's hierarchy, compressed, as the newer version stores it.
    let b = f.block(zlib(&tc(
        &FOLDER_COLS,
        vec![
            (INBOX, folder("Inbox", 2, 1, true)),
            (SENT, folder("Sent", 0, 0, false)),
            (SEARCH, folder("Unread Mail", 5, 5, false)),
            (INBOX, folder("Inbox again", 9, 9, false)),
            (0, folder("no id", 0, 0, false)),
        ],
    )));
    f.node(make_nid(nid_index(NID_ROOT_FOLDER), 0x0D), b, 0);
    let b = f.block(tc(&FOLDER_COLS, vec![(NESTED, vec![
        Cell::Absent,
        Cell::Stale(7),
        Cell::Int(-1),
        Cell::Absent,
    ])]));
    f.node(make_nid(nid_index(INBOX), 0x0D), b, 0);
    let b = f.block(tc(
        &MESSAGE_COLS,
        vec![
            (MESSAGE, vec![
                Cell::Heap(wide("\u{1}\u{4}RE: hello")),
                Cell::Heap(one_off("Example Sender", "sender@example.com")),
                Cell::Time(1_700_000_000_000_000),
                Cell::Int(4321),
                Cell::Int(0x10),
                Cell::Heap(wide("IPM.Note")),
                Cell::Absent,
            ]),
            (PLAIN, vec![
                Cell::Absent,
                Cell::Stale(0x60),
                Cell::Absent,
                Cell::Absent,
                Cell::Int(0x01),
                Cell::Absent,
                Cell::Heap(wide("Named")),
            ]),
        ],
    ));
    f.node(make_nid(nid_index(INBOX), 0x0E), b, 0);

    // The message: a property context, recipients, and four attachments.
    let rtf = compressed_rtf::compress_rtf("{\\rtf1 hello}").unwrap();
    let long = f.block(wide("a long plain body, ".repeat(3).as_str()));
    let data = f.block(pc(vec![
        (pid::SUBJECT, PT_UNICODE, text("\u{1}\u{4}RE: hello")),
        (pid::SENDER_ENTRY_ID, PT_BINARY, Value::Heap(one_off("Entry Name", "entry@example.com"))),
        (pid::SENT_REPRESENTING_NAME, PT_UNICODE, text("Represented")),
        (pid::DISPLAY_TO, PT_UNICODE, text("To Person")),
        (pid::DISPLAY_CC, PT_STRING8, Value::Heap(b"Cc Person".to_vec())),
        (pid::MESSAGE_DELIVERY_TIME, PT_SYSTIME, time(1_700_000_000_000_000)),
        (pid::MESSAGE_SIZE, PT_I32, Value::Inline(4321)),
        (pid::MESSAGE_FLAGS, PT_I32, Value::Inline(0x11)),
        (pid::MESSAGE_CLASS, PT_UNICODE, text("IPM.Note")),
        (pid::INTERNET_MESSAGE_ID, PT_UNICODE, text("<id@example.com>")),
        (pid::BODY, PT_UNICODE, Value::Inline(0x813F)),
        (pid::HTML, PT_BINARY, Value::Heap(b"<p>caf\xc3\xa9 \xff</p>".to_vec())),
        (pid::RTF_COMPRESSED, PT_BINARY, Value::Heap(rtf)),
    ]));
    let recipients = f.block(tc(
        &[
            (pid::RECIPIENT_TYPE, PT_I32, 4),
            (pid::DISPLAY_NAME, PT_UNICODE, 4),
            (pid::SMTP_ADDRESS, PT_UNICODE, 4),
            (pid::EMAIL_ADDRESS, PT_UNICODE, 4),
        ],
        vec![
            (1, vec![
                Cell::Int(1),
                Cell::Heap(wide("To Person")),
                Cell::Heap(wide("to@example.com")),
                Cell::Heap(wide("other@example.com")),
            ]),
            (2, vec![Cell::Int(2), Cell::Absent, Cell::Absent, Cell::Heap(wide("cc@example.com"))]),
        ],
    ));
    let list = f.block(tc(
        &[(pid::ATTACH_SIZE, PT_I32, 4), (pid::ATTACH_LONG_FILENAME, PT_UNICODE, 4)],
        vec![
            (ATTACHMENT, vec![Cell::Int(700), Cell::Absent]),
            (EMBEDDED, vec![Cell::Int(800), Cell::Heap(wide("from the row.msg"))]),
            (BARE, vec![Cell::Int(900), Cell::Absent]),
            (LOST, vec![Cell::Absent, Cell::Heap(wide("lost.bin"))]),
        ],
    ));
    let a = f.block(pc(vec![
        (pid::ATTACH_LONG_FILENAME, PT_UNICODE, text("report.pdf")),
        (pid::ATTACH_FILENAME, PT_UNICODE, text("REPORT~1.PDF")),
        (pid::ATTACH_MIME_TAG, PT_UNICODE, text("application/pdf")),
        (pid::ATTACH_CONTENT_ID, PT_UNICODE, text("cid-1")),
        (pid::ATTACH_DATA_BINARY, PT_BINARY, Value::Heap(b"payload bytes".to_vec())),
    ]));
    let e = f.block(pc(vec![
        (pid::ATTACH_DATA_BINARY, PT_OBJECT, Value::Heap(vec![0; 8])),
    ]));
    let bare = f.block(pc(vec![(pid::ATTACH_FILENAME, PT_UNICODE, text("short.txt"))]));
    let sub = f.subnodes(&[
        (NID_RECIPIENT_TABLE, recipients, 0),
        (NID_ATTACHMENT_TABLE, list, 0),
        (ATTACHMENT, a, 0),
        (EMBEDDED, e, 0),
        (BARE, bare, 0),
        (0x813F, long, 0),
    ]);
    f.node(MESSAGE, data, sub);
    let data = f.block(pc(vec![
        (pid::SENDER_NAME, PT_UNICODE, text("Named")),
        (pid::BODY, PT_STRING8, Value::Heap(b"short body".to_vec())),
    ]));
    f.node(PLAIN, data, 0);
    f.bytes()
}

// ---- identifiers ----

#[test]
fn hid_split_is_version_specific() {
    // hidUserRoot of the Deleted Items contents table in a live v36 OST. Its
    // heap has 304 blocks, so only the bit-19 split is in range.
    assert_eq!(hid_parts(0x0348_4520, 19), (553, 105));
    assert_eq!(hid_parts(0x0348_4520, 16), (553, 840));
    // A single-block heap decodes the same either way, which is why v23 and
    // v36 agree on every small property context.
    assert_eq!(hid_parts(0x20, 19), (1, 0));
    assert_eq!(hid_parts(0x20, 16), (1, 0));
}

#[test]
fn zlib_sniff_accepts_real_headers_and_rejects_text() {
    assert!(looks_zlib(&[0x78, 0x9C]));
    assert!(looks_zlib(&[0x78, 0x01]));
    assert!(looks_zlib(&[0x78, 0xDA]));
    // An HNHDR never opens with a valid zlib header pair.
    assert!(!looks_zlib(&[0x0C, 0xEC]));
    assert!(!looks_zlib(&[0x3C, 0x68]));
    assert!(!looks_zlib(&[0x78]));
}

#[test]
fn bid_flags() {
    assert_eq!(bid_key(0x1D6E5DD), 0x1D6E5DC);
    assert!(bid_is_internal(0x02));
    assert!(!bid_is_internal(0x01));
}

#[test]
fn nid_parts_make_the_nid_again() {
    for nid in [0x21, 0x122, 0x12D, 0x0020_0024, 0xFFFF_FFFF] {
        assert_eq!(make_nid(nid_index(nid), nid_type(nid)), nid);
    }
    assert_eq!(nid_type(0x122), 0x02);
    assert_eq!(nid_index(0x122), 9);
    assert_eq!(make_nid(9, 0x0D), 0x12D);
}

#[test]
fn small_hids_split_alike_in_both_versions() {
    for hid in [0x20u32, 0x40, 0xFFE0] {
        assert_eq!(hid_parts(hid, 16), hid_parts(hid, 19));
    }
    assert_ne!(hid_parts(0x1_0020, 16), hid_parts(0x1_0020, 19));
}

// ---- opening ----

fn fails(bytes: &[u8]) -> Error {
    match Pff::from_map(bytes) {
        Ok(_) => panic!("opened"),
        Err(e) => e,
    }
}

#[test]
fn both_versions_open() {
    for ver in [23, 36] {
        let bytes = sample(ver);
        let pff = Pff::from_map(&bytes).unwrap();
        assert_eq!(pff.ver, ver);
        assert_eq!(pff.len(), bytes.len());
        assert!(!pff.is_empty());
        assert_eq!(pff.nbt.len(), 7);
        assert_eq!(pff.geom.page, if ver == 23 { 512 } else { 4096 });
    }
}

#[test]
fn a_header_is_checked_field_by_field() {
    let good = sample(23);
    let with = |at: usize, v: &[u8]| {
        let mut b = good.clone();
        put(&mut b, at, v);
        fails(&b).display()
    };
    assert_eq!(fails(&good[..0x20F]).display(), "malformed: file shorter than a PFF header");
    assert_eq!(with(0, b"XBDN"), "malformed: missing !BDN magic");
    assert_eq!(with(8, &[0x12, 0x0A]), "malformed: unexpected wMagicClient 0x0A12");
    assert_eq!(
        with(10, &[14, 0]),
        "unsupported: 32-bit ANSI PFF (wVer 14/15, Outlook 2002 and earlier)"
    );
    assert_eq!(
        with(10, &[15, 0]),
        "unsupported: 32-bit ANSI PFF (wVer 14/15, Outlook 2002 and earlier)"
    );
    assert_eq!(with(10, &[99, 0]), "unsupported: unknown PFF wVer 99");
    assert_eq!(
        with(0x201, &[1]),
        "unsupported: bCryptMethod 1; only NDB_CRYPT_NONE is implemented"
    );
    assert_eq!(with(0xF0, &0xFFFF_FFFFu64.to_le_bytes()), "malformed: page at 0xFFFFFFFF is past EOF");
    assert_eq!(with(0xE0, &u64::MAX.to_le_bytes()), "malformed: page offset overflow");
}

#[test]
fn an_overfull_page_is_refused() {
    let mut bytes = sample(23);
    let at = u64::from_le_bytes(bytes[0xF0..0xF8].try_into().unwrap()) as usize;
    bytes[at + 488 + 2] = 250;
    let told = format!("malformed: BTree page at 0x{at:X} claims");
    assert!(fails(&bytes).display().starts_with(&told));
    bytes[at + 488 + 2] = 0;
    assert!(fails(&bytes).display().starts_with(&told));
}

#[test]
fn an_endless_tree_is_refused() {
    let mut bytes = sample(23);
    let at = u64::from_le_bytes(bytes[0xF0..0xF8].try_into().unwrap()) as usize;
    // A page that is its own child.
    let mut entry = vec![0u8; 16];
    entry.extend_from_slice(&(at as u64).to_le_bytes());
    put(&mut bytes, at, &page(23, &[entry], 24, 1));
    assert_eq!(fails(&bytes).display(), "malformed: BTree deeper than 16 levels");
}

#[test]
fn trees_of_several_pages_hold_every_entry() {
    let mut f = File::new(23);
    let mut bids = Vec::new();
    for i in 0..70u32 {
        let b = f.block(format!("block {i}").into_bytes());
        f.node(0x1000 + i * 0x20, b, 0);
        bids.push(b);
    }
    let bytes = f.bytes();
    let pff = Pff::from_map(&bytes).unwrap();
    assert_eq!(pff.nbt.len(), 70);
    assert_eq!(pff.bbt.len(), 70);
    for (i, b) in bids.iter().enumerate() {
        assert_eq!(pff.block(*b).unwrap(), format!("block {i}").into_bytes());
        assert_eq!(pff.node(0x1000 + i as u32 * 0x20).unwrap().bid_data, *b);
    }
}

// ---- blocks and trees of blocks ----

#[test]
fn a_missing_node_or_block_is_not_found() {
    let bytes = sample(36);
    let pff = Pff::from_map(&bytes).unwrap();
    assert_eq!(
        pff.node(0xABC).unwrap_err().display(),
        "not found: nid 0xABC is not in the node BTree"
    );
    assert_eq!(
        pff.block(0xABC0).unwrap_err().display(),
        "not found: bid 0xABC0 is not in the block BTree"
    );
}

#[test]
fn a_block_past_the_end_is_malformed() {
    let mut f = File::new(36);
    let b = f.block(b"x".to_vec());
    let mut bytes = f.bytes();
    let at = u64::from_le_bytes(bytes[0xF0..0xF8].try_into().unwrap()) as usize;
    put(&mut bytes, at + 8, &0x00FF_FFFFu64.to_le_bytes());
    assert_eq!(
        Pff::from_map(&bytes).unwrap().block(b).unwrap_err().display(),
        "malformed: block 0x4 is past EOF"
    );
    put(&mut bytes, at + 8, &u64::MAX.to_le_bytes());
    assert_eq!(
        Pff::from_map(&bytes).unwrap().block(b).unwrap_err().display(),
        "malformed: block offset overflow"
    );
}

#[test]
fn compressed_blocks_are_inflated() {
    let mut f = File::new(36);
    let stored = f.block(zlib(b"some text that was compressed"));
    // A header pair that happens to sniff as zlib, on bytes that are not.
    let lookalike = f.block(vec![0x78, 0x9C, 1, 2, 3]);
    let bytes = f.bytes();
    let pff = Pff::from_map(&bytes).unwrap();
    assert_eq!(pff.block(stored).unwrap(), b"some text that was compressed");
    assert_eq!(pff.block(lookalike).unwrap(), vec![0x78, 0x9C, 1, 2, 3]);
    assert_eq!(inflate(&zlib(b"abc")), Some(b"abc".to_vec()));
    assert_eq!(inflate(&zlib(b"")), None);
    assert_eq!(inflate(b"abc"), None);
    assert_eq!(block_payload(b"raw", Some(b"inflated".to_vec())), b"inflated");
    assert_eq!(block_payload(b"raw", None), b"raw");
}

#[test]
fn the_reserved_bit_of_a_bid_is_ignored() {
    let mut f = File::new(36);
    let b = f.block(b"data".to_vec());
    let bytes = f.bytes();
    let pff = Pff::from_map(&bytes).unwrap();
    assert_eq!(pff.block(b + 1).unwrap(), pff.block(b).unwrap());
    assert_eq!(pff.data_blocks(b + 1).unwrap(), pff.data_blocks(b).unwrap());
}

fn xblock(children: &[u64]) -> Vec<u8> {
    let mut b = vec![0x01, 1];
    b.extend_from_slice(&(children.len() as u16).to_le_bytes());
    b.extend_from_slice(&[0; 4]);
    for c in children {
        b.extend_from_slice(&c.to_le_bytes());
    }
    b
}

#[test]
fn a_data_tree_is_its_leaves_in_order() {
    let mut f = File::new(36);
    let a = f.block(b"one ".to_vec());
    let b = f.block(b"two ".to_vec());
    let c = f.block(b"three".to_vec());
    let x = f.internal(xblock(&[a, b]));
    let y = f.internal(xblock(&[c]));
    let xx = f.internal(xblock(&[x, y]));
    let bytes = f.bytes();
    let pff = Pff::from_map(&bytes).unwrap();
    assert_eq!(
        pff.data_blocks(xx).unwrap(),
        vec![b"one ".to_vec(), b"two ".to_vec(), b"three".to_vec()]
    );
    assert_eq!(pff.data_flat(xx).unwrap(), b"one two three");
    assert_eq!(pff.data_flat(xx).unwrap(), pff.data_blocks(xx).unwrap().concat());
}

#[test]
fn a_broken_data_tree_is_malformed() {
    let mut f = File::new(36);
    let short = f.internal(vec![1, 1, 0]);
    let other = f.internal(vec![9, 1, 0, 0, 0, 0, 0, 0]);
    let over = f.internal(vec![1, 1, 3, 0, 0, 0, 0, 0, 4, 0, 0, 0, 0, 0, 0, 0]);
    let own = f.next_bid + 2;
    f.internal(xblock(&[own]));
    let bytes = f.bytes();
    let pff = Pff::from_map(&bytes).unwrap();
    let told = |bid: u64| pff.data_blocks(bid).unwrap_err().display();
    assert_eq!(told(short), format!("malformed: XBLOCK 0x{short:X} is truncated"));
    assert_eq!(
        told(other),
        format!("malformed: bid 0x{other:X} is internal but btype is 0x09, expected 0x01")
    );
    assert_eq!(
        told(over),
        format!("malformed: XBLOCK 0x{over:X} claims 3 children but holds 16 bytes")
    );
    assert_eq!(told(own), "malformed: data tree deeper than 4 levels");
}

#[test]
fn subnode_trees_are_flattened() {
    let mut f = File::new(36);
    let one = f.subnodes(&[(0x11, 4, 8), (0x12, 12, 0)]);
    let two = f.subnodes(&[(0x12, 16, 20)]);
    let mut b = vec![0x02, 1, 2, 0, 0, 0, 0, 0];
    for (nid, bid) in [(0x11u64, one), (0x12, two)] {
        b.extend_from_slice(&nid.to_le_bytes());
        b.extend_from_slice(&bid.to_le_bytes());
    }
    let root = f.internal(b);
    let bytes = f.bytes();
    let pff = Pff::from_map(&bytes).unwrap();
    let subs = pff.subnodes(root).unwrap();
    assert_eq!(subs.len(), 2);
    assert_eq!(subs[&0x11], (4, 8));
    // The last entry of a NID is the one that counts.
    assert_eq!(subs[&0x12], (16, 20));
    assert!(pff.subnodes(0).unwrap().is_empty());
}

#[test]
fn a_broken_subnode_tree_is_malformed() {
    let mut f = File::new(36);
    let short = f.internal(vec![2, 0, 0]);
    let other = f.internal(vec![0x01, 0, 0, 0, 0, 0, 0, 0]);
    let over = f.internal(vec![0x02, 0, 2, 0, 0, 0, 0, 0]);
    let own = f.next_bid + 2;
    let mut b = vec![0x02, 1, 1, 0, 0, 0, 0, 0];
    b.extend_from_slice(&0u64.to_le_bytes());
    b.extend_from_slice(&own.to_le_bytes());
    f.internal(b);
    let bytes = f.bytes();
    let pff = Pff::from_map(&bytes).unwrap();
    let told = |bid: u64| pff.subnodes(bid).unwrap_err().display();
    assert_eq!(told(short), format!("malformed: SLBLOCK 0x{short:X} is truncated"));
    assert_eq!(
        told(other),
        format!("malformed: subnode block 0x{other:X} btype is 0x01, expected 0x02")
    );
    assert_eq!(
        told(over),
        format!("malformed: subnode block 0x{over:X} claims 2 entries but holds 8 bytes")
    );
    assert_eq!(told(own), "malformed: subnode tree deeper than 4 levels");
}

// ---- heaps ----

#[test]
fn heap_items_are_found_by_hid() {
    let hn = Hn::parse(vec![heap(0xBC, 0x20, &[b"first".to_vec(), b"second".to_vec()])], 19).unwrap();
    assert_eq!(hn.client_sig, 0xBC);
    assert_eq!(hn.hid_user_root, 0x20);
    assert_eq!(hn.item(0x20).unwrap(), b"first");
    assert_eq!(hn.item(0x40).unwrap(), b"second");
    let told = |hid: u32| hn.item(hid).unwrap_err().display();
    assert_eq!(told(0x21), "malformed: 0x00000021 is not a HID");
    assert_eq!(told(0), "malformed: hidIndex 0 is reserved");
    assert_eq!(told(0x60), "malformed: hidIndex 3 is beyond a 3-entry allocation map");
    assert_eq!(told(0x0008_0020), "malformed: HID block index 1 is out of range");
}

#[test]
fn a_heap_spans_blocks() {
    let mut second = heap(0, 0, &[b"in the second".to_vec()]);
    second[2] = 0;
    let blocks = vec![heap(0xBC, 0x20, &[b"in the first".to_vec()]), second];
    let hn = Hn::parse(blocks.clone(), 19).unwrap();
    assert_eq!(hn.item(0x0008_0020).unwrap(), b"in the second");
    let hn = Hn::parse(blocks.clone(), 40).unwrap();
    assert_eq!((hn.client_sig, hn.hid_user_root, hn.hid_block_shift), (0xBC, 0x20, 40));
    let hn = Hn::parse(blocks, 16).unwrap();
    assert_eq!(hn.item(0x0001_0020).unwrap(), b"in the second");
}

#[test]
fn a_broken_heap_is_malformed() {
    let told = |b: Vec<Vec<u8>>| match Hn::parse(b, 16) {
        Ok(_) => panic!("parsed"),
        Err(e) => e.display(),
    };
    assert_eq!(told(vec![]), "malformed: heap node has no blocks");
    assert_eq!(told(vec![vec![0; 11]]), "malformed: first heap block is truncated");
    assert_eq!(told(vec![vec![0; 12]]), "malformed: HNHDR bSig is 0x00, expected 0xEC");
    let mut b = heap(0xBC, 0x20, &[b"item".to_vec()]);
    let at = b.len() - 2;
    put(&mut b, at, &9999u16.to_le_bytes());
    let hn = Hn::parse(vec![b], 16).unwrap();
    assert_eq!(hn.item(0x20).unwrap_err().display(), "malformed: heap item runs outside its block");
}

#[test]
fn a_heap_tree_gives_its_records_in_order() {
    // Two leaves below one index level.
    let items = vec![
        vec![0xB5, 2, 3, 1, 0x40, 0, 0, 0],
        vec![0, 0, 0x60, 0, 0, 0, 9, 9, 0x80, 0, 0, 0],
        vec![1, 0, b'a', b'b', b'c', 2, 0, b'd', b'e', b'f'],
        vec![3, 0, b'g', b'h', b'i', 0xFF],
    ];
    let hn = Hn::parse(vec![heap(0xBC, 0x20, &items)], 16).unwrap();
    let got = bth_records(&hn, 0x20).unwrap();
    assert_eq!(
        got,
        vec![
            (vec![1, 0], b"abc".to_vec()),
            (vec![2, 0], b"def".to_vec()),
            (vec![3, 0], b"ghi".to_vec())
        ]
    );
    let bad = Hn::parse(vec![heap(0xBC, 0x20, &[vec![0xB5; 7], vec![0xB6; 8]])], 16).unwrap();
    assert_eq!(bth_records(&bad, 0x20).unwrap_err().display(), "malformed: BTHHEADER is truncated");
    assert_eq!(
        bth_records(&bad, 0x40).unwrap_err().display(),
        "malformed: BTHHEADER bType is 0xB6, expected 0xB5"
    );
}

// ---- property contexts ----

#[test]
fn properties_are_read_by_type() {
    let bytes = sample(36);
    let pff = Pff::from_map(&bytes).unwrap();
    let pc = Pc::open(&pff, MESSAGE).unwrap();
    assert!(pc.props.windows(2).all(|w| w[0].id <= w[1].id));
    assert_eq!(pc.i32(pid::MESSAGE_SIZE), Some(4321));
    assert_eq!(pc.bool(pid::MESSAGE_FLAGS), Some(true));
    assert_eq!(pc.string(pid::DISPLAY_TO).as_deref(), Some("To Person"));
    assert_eq!(pc.string(pid::DISPLAY_CC).as_deref(), Some("Cc Person"));
    assert_eq!(pc.string(pid::HTML), None);
    assert_eq!(pc.text(pid::HTML).as_deref(), Some("<p>caf\u{e9} \u{fffd}</p>"));
    assert_eq!(pc.u64(pid::MESSAGE_DELIVERY_TIME), Some(filetime(1_700_000_000_000_000)));
    assert_eq!(pc.prop(pid::MESSAGE_SIZE).unwrap().raw, 4321);
    assert_eq!(pc.prop(pid::IMPORTANCE).map(|p| p.raw), None);
    assert_eq!(pc.bytes(pid::IMPORTANCE), None);
    assert_eq!(pc.u64(pid::DISPLAY_CC), Some(u64::from_le_bytes(*b"Cc Perso")));
}

#[test]
fn the_first_record_of_a_property_counts() {
    let mut f = File::new(23);
    let b = f.block(pc(vec![
        (9, PT_I32, Value::Inline(1)),
        (5, PT_I32, Value::Inline(2)),
        (9, PT_I32, Value::Inline(3)),
    ]));
    f.node(0x21, b, 0);
    let bytes = f.bytes();
    let pff = Pff::from_map(&bytes).unwrap();
    let pc = Pc::open_at(&pff, b, 0).unwrap();
    assert_eq!(pc.i32(9), Some(1));
    assert_eq!(pc.props.iter().map(|p| p.raw).collect::<Vec<_>>(), vec![2, 1, 3]);
}

#[test]
fn a_table_is_no_property_context_and_the_reverse() {
    let bytes = sample(36);
    let pff = Pff::from_map(&bytes).unwrap();
    match Pc::open(&pff, make_nid(nid_index(INBOX), 0x0E)) {
        Err(e) => assert_eq!(
            e.display(),
            "malformed: bClientSig is 0x7C, not a property context (0xBC)"
        ),
        Ok(_) => panic!("opened"),
    }
    match Tc::open(&pff, MESSAGE) {
        Err(e) => assert_eq!(e.display(), "malformed: bClientSig is 0xBC, not a table context (0x7C)"),
        Ok(_) => panic!("opened"),
    }
}

// ---- table contexts ----

#[test]
fn cells_are_read_only_where_the_row_has_them() {
    let bytes = sample(36);
    let pff = Pff::from_map(&bytes).unwrap();
    let tc = Tc::open(&pff, make_nid(nid_index(INBOX), 0x0E)).unwrap();
    assert_eq!(tc.row_count(), 2);
    assert_eq!(tc.cols.len(), 7);
    let row = tc.row(1);
    assert_eq!(Tc::row_id(row), PLAIN);
    let c = tc.col(pid::SENDER_ENTRY_ID).unwrap();
    assert_eq!((c.id(), c.ptype()), (pid::SENDER_ENTRY_ID, PT_BINARY));
    // The slot holds a HID that resolves, but the bitmap says it is not there.
    assert!(!tc.has_cell(row, &c));
    assert_eq!(tc.bytes(row, pid::SENDER_ENTRY_ID), None);
    assert_eq!(tc.string(row, pid::SUBJECT), None);
    assert_eq!(tc.u64(row, pid::MESSAGE_DELIVERY_TIME), None);
    assert_eq!(tc.i32(row, pid::MESSAGE_FLAGS), Some(1));
    assert_eq!(tc.bool(row, pid::MESSAGE_FLAGS), Some(true));
    assert_eq!(tc.i32(row, pid::IMPORTANCE), None);
    let row = tc.row(0);
    assert_eq!(tc.u64(row, pid::MESSAGE_DELIVERY_TIME), Some(filetime(1_700_000_000_000_000)));
    assert_eq!(tc.u64(row, pid::MESSAGE_SIZE), None);
    assert_eq!(Tc::row_id(&[1, 2, 3]), 0);
}

#[test]
fn rows_may_outgrow_the_heap() {
    let mut f = File::new(36);
    let mut heap_block = tc(&[(pid::MESSAGE_SIZE, PT_I32, 4)], vec![]);
    // hnidRows of the TCINFO, which is the first heap item.
    put(&mut heap_block, 12 + 14, &0x3Fu32.to_le_bytes());
    let b = f.block(heap_block);
    let row = |id: u32, n: i32| {
        let mut r = id.to_le_bytes().to_vec();
        r.extend_from_slice(&n.to_le_bytes());
        r.push(0x80);
        r
    };
    let one = f.block([row(1, 10), row(2, 20), vec![0xEE; 4]].concat());
    let two = f.block(row(3, 30));
    let x = f.internal(xblock(&[one, two]));
    let sub = f.subnodes(&[(0x3F, x, 0)]);
    let bytes = f.bytes();
    let pff = Pff::from_map(&bytes).unwrap();
    let t = Tc::open_at(&pff, b, sub).unwrap();
    assert_eq!(t.row_count(), 3);
    for i in 0..3 {
        assert_eq!(t.i32(t.row(i), pid::MESSAGE_SIZE), Some(10 * (i as i32 + 1)));
    }
    match Tc::open_at(&pff, b, 0) {
        Err(e) => assert_eq!(e.display(), "malformed: hnidRows 0x0000003F is not a subnode"),
        Ok(_) => panic!("opened"),
    }
}

#[test]
fn a_short_tcinfo_is_malformed() {
    let mut f = File::new(36);
    let b = f.block(heap(0x7C, 0x20, &[vec![0x7C; 21]]));
    let bytes = f.bytes();
    let pff = Pff::from_map(&bytes).unwrap();
    match Tc::open_at(&pff, b, 0) {
        Err(e) => assert_eq!(e.display(), "malformed: TCINFO is truncated or mistyped"),
        Ok(_) => panic!("opened"),
    }
}

// ---- the messaging layer ----

#[test]
fn the_folder_tree_is_read_breadth_first() {
    for ver in [23, 36] {
        let bytes = sample(ver);
        let store = Store::open(&bytes).unwrap();
        assert_eq!(store.display_name().as_deref(), Some("user@example.com"));
        let folders = store.folders().unwrap();
        let got: Vec<(u32, u32, &str, &str)> = folders
            .iter()
            .map(|f| (f.nid, f.parent_nid, f.name.as_str(), f.path.as_str()))
            .collect();
        assert_eq!(
            got,
            vec![
                (NID_ROOT_FOLDER, 0, "Root - Mailbox", ""),
                (INBOX, NID_ROOT_FOLDER, "Inbox", "/Inbox"),
                (SENT, NID_ROOT_FOLDER, "Sent", "/Sent"),
                (SEARCH, NID_ROOT_FOLDER, "Unread Mail", "/Unread Mail"),
                (NESTED, INBOX, "", "/Inbox/"),
            ]
        );
        assert_eq!(folders[1].item_count, Some(2));
        assert_eq!(folders[1].unread_count, Some(1));
        assert!(folders[1].has_subfolders);
        // The count of the nested folder is stale bytes, its unread count is set.
        assert_eq!(folders[4].item_count, None);
        assert_eq!(folders[4].unread_count, Some(-1));
        assert!(!folders[4].has_subfolders);
        // Every folder is listed once, below one that stands before it.
        for (i, f) in folders.iter().enumerate().skip(1) {
            let parent = folders[..i].iter().find(|p| p.nid == f.parent_nid).unwrap();
            assert_eq!(f.path, format!("{}/{}", parent.path, f.name));
            assert!(folders[..i].iter().all(|p| p.nid != f.nid));
        }
        // A parent is a normal folder, and parents come in the order of their folders.
        let parents: Vec<usize> = folders[1..]
            .iter()
            .map(|f| folders.iter().position(|p| p.nid == f.parent_nid).unwrap())
            .collect();
        assert!(parents.windows(2).all(|w| w[0] <= w[1]));
        assert!(parents.iter().all(|&p| folders[p].nid % 32 == 2));
    }
}

#[test]
fn a_store_without_root_properties_is_called_root() {
    let f = File::new(36);
    let bytes = f.bytes();
    let store = Store::open(&bytes).unwrap();
    assert_eq!(store.display_name(), None);
    let folders = store.folders().unwrap();
    assert_eq!(folders.len(), 1);
    assert_eq!(folders[0].name, "Root");
}

#[test]
fn message_rows_come_from_the_contents_table() {
    let bytes = sample(36);
    let store = Store::open(&bytes).unwrap();
    let rows = store.messages(INBOX).unwrap();
    assert_eq!(rows.len(), 2);
    let a = &rows[0];
    assert_eq!((a.nid, a.folder_nid), (MESSAGE, INBOX));
    assert_eq!(a.subject.as_deref(), Some("RE: hello"));
    assert_eq!(a.sender_name.as_deref(), Some("Example Sender"));
    assert_eq!(a.sender_email.as_deref(), Some("sender@example.com"));
    assert_eq!(a.delivered_us, Some(1_700_000_000_000_000));
    assert_eq!(a.submitted_us, None);
    assert_eq!(a.size, Some(4321));
    assert_eq!(a.unread, Some(true));
    assert_eq!(a.has_attachments, Some(true));
    assert_eq!(a.message_class.as_deref(), Some("IPM.Note"));
    let b = &rows[1];
    assert_eq!(b.sender_name.as_deref(), Some("Named"));
    assert_eq!(b.sender_email, None);
    assert_eq!(b.unread, Some(false));
    assert_eq!(b.has_attachments, Some(false));
    assert_eq!(b.size, None);
    assert_eq!(
        store.messages(SENT).unwrap_err().display(),
        "not found: nid 0x804E is not in the node BTree"
    );
}

#[test]
fn a_message_is_read_whole() {
    let bytes = sample(36);
    let store = Store::open(&bytes).unwrap();
    let m = store.message(MESSAGE).unwrap();
    assert_eq!(m.nid, MESSAGE);
    assert_eq!(m.subject.as_deref(), Some("RE: hello"));
    assert_eq!(m.sender_name.as_deref(), Some("Represented"));
    assert_eq!(m.sender_email.as_deref(), Some("entry@example.com"));
    assert_eq!(m.display_to.as_deref(), Some("To Person"));
    assert_eq!(m.display_cc.as_deref(), Some("Cc Person"));
    assert_eq!(m.display_bcc, None);
    assert_eq!(m.delivered_us, Some(1_700_000_000_000_000));
    assert_eq!(m.size, Some(4321));
    assert_eq!(m.unread, Some(false));
    assert_eq!(m.internet_message_id.as_deref(), Some("<id@example.com>"));
    assert_eq!(m.conversation_topic, None);
    assert_eq!(m.body_plain, Some("a long plain body, ".repeat(3)));
    assert_eq!(m.body_html.as_deref(), Some("<p>caf\u{e9} \u{fffd}</p>"));
    assert_eq!(m.body_rtf.as_deref(), Some("{\\rtf1 hello}"));
    let r: Vec<(Option<i32>, Option<&str>, Option<&str>)> = m
        .recipients
        .iter()
        .map(|r| (r.kind, r.name.as_deref(), r.email.as_deref()))
        .collect();
    assert_eq!(
        r,
        vec![
            (Some(1), Some("To Person"), Some("to@example.com")),
            (Some(2), None, Some("cc@example.com"))
        ]
    );
    assert_eq!(m.attachments.len(), 4);
    let m = store.message(PLAIN).unwrap();
    assert_eq!(m.sender_name.as_deref(), Some("Named"));
    assert_eq!(m.body_plain.as_deref(), Some("short body"));
    assert_eq!(m.body_rtf, None);
    assert!(m.recipients.is_empty());
    assert!(m.attachments.is_empty());
    assert!(matches!(store.message(0xABC), Err(Error::NotFound(_))));
}

#[test]
fn compressed_rtf_that_cannot_be_read_is_no_body() {
    let good = compressed_rtf::compress_rtf("{\\rtf1 hi}").unwrap();
    assert_eq!(rtf_body(Some(good.clone())).as_deref(), Some("{\\rtf1 hi}"));
    assert_eq!(rtf_body(None), None);
    assert_eq!(rtf_body(Some(vec![0; 15])), None);
    let mut bad = good;
    let last = bad.len() - 1;
    bad[last] ^= 1;
    assert_eq!(rtf_body(Some(bad)), None);
    // The uncompressed form, and one that announces more than there is.
    let mut plain = 16u32.to_le_bytes().to_vec();
    plain.extend_from_slice(&4u32.to_le_bytes());
    plain.extend_from_slice(&0x414C_454Du32.to_le_bytes());
    plain.extend_from_slice(&0u32.to_le_bytes());
    plain.extend_from_slice(b"abcd");
    assert_eq!(rtf_body(Some(plain.clone())).as_deref(), Some("abcd"));
    plain[4] = 5;
    assert_eq!(rtf_body(Some(plain)), None);
}

#[test]
fn attachments_are_listed_with_their_payload_length() {
    let bytes = sample(36);
    let store = Store::open(&bytes).unwrap();
    let list = store.attachments(MESSAGE).unwrap();
    let got: Vec<(u32, Option<&str>, Option<i32>, Option<usize>)> = list
        .iter()
        .map(|a| (a.nid, a.filename.as_deref(), a.declared_size, a.data_len))
        .collect();
    assert_eq!(
        got,
        vec![
            (ATTACHMENT, Some("report.pdf"), Some(700), Some(13)),
            (EMBEDDED, Some("from the row.msg"), Some(800), None),
            (BARE, Some("short.txt"), Some(900), None),
            (LOST, Some("lost.bin"), None, None),
        ]
    );
    assert_eq!(list[0].mime.as_deref(), Some("application/pdf"));
    assert_eq!(list[0].content_id.as_deref(), Some("cid-1"));
    // What is listed is what is read.
    for a in &list {
        match store.attachment_bytes(MESSAGE, a.nid) {
            Ok(b) => assert_eq!(a.data_len, Some(b.len())),
            Err(_) => assert_eq!(a.data_len, None),
        }
    }
}

#[test]
fn attachment_bytes_say_why_there_are_none() {
    let bytes = sample(36);
    let store = Store::open(&bytes).unwrap();
    assert_eq!(store.attachment_bytes(MESSAGE, ATTACHMENT).unwrap(), b"payload bytes");
    let told = |nid: u32| store.attachment_bytes(MESSAGE, nid).unwrap_err().display();
    assert_eq!(told(EMBEDDED), "unsupported: attachment is an embedded message, not a byte payload");
    assert_eq!(told(BARE), "not found: attachment has no PidTagAttachDataBinary");
    assert_eq!(
        told(LOST),
        "not found: attachment 0x8085 is not a subnode of message 0x200024"
    );
}

#[test]
fn an_unresolved_payload_is_malformed() {
    let mut f = File::new(36);
    let a = f.block(pc(vec![(pid::ATTACH_DATA_BINARY, PT_BINARY, Value::Inline(0x1F))]));
    let sub = f.subnodes(&[(ATTACHMENT, a, 0)]);
    let m = f.block(pc(vec![]));
    f.node(MESSAGE, m, sub);
    let bytes = f.bytes();
    let store = Store::open(&bytes).unwrap();
    assert_eq!(
        store.attachment_bytes(MESSAGE, ATTACHMENT).unwrap_err().display(),
        "malformed: attachment payload did not resolve"
    );
}

// ---- through the mailbox trait ----

#[test]
fn the_adapter_widens_ids_and_nothing_else() {
    let bytes = sample(36);
    let store = Store::open(&bytes).unwrap();
    let native_rows = store.messages(INBOX).unwrap();
    let mb = OstMailbox::new(Store::open(&bytes).unwrap());
    assert_eq!(mb.kind(), "ost-v36");
    assert_eq!(mb.display_name().as_deref(), Some("user@example.com"));
    let folders = mb.folders().unwrap();
    assert_eq!(folders.len(), 5);
    assert_eq!(folders[0].parent_id, None);
    assert_eq!(folders[0].name.as_deref(), Some("Root - Mailbox"));
    assert_eq!(folders[1].parent_id, Some(NID_ROOT_FOLDER as i64));
    assert_eq!(folders[1].item_count, Some(2));
    assert!(!folders[1].is_search_folder);
    assert!(folders[3].is_search_folder);
    let rows = mb.messages(INBOX as i64).unwrap();
    assert_eq!(rows.len(), native_rows.len());
    for (r, n) in rows.iter().zip(&native_rows) {
        assert_eq!(r.id as u32, n.nid);
        assert_eq!(r.subject, n.subject);
        assert_eq!(r.sender_email, n.sender_email);
        assert_eq!(r.unread, n.unread);
    }
    let m = mb.message(MESSAGE as i64).unwrap();
    assert_eq!(m.id, MESSAGE as i64);
    assert_eq!(m.size, Some(4321));
    assert_eq!(m.recipients.len(), 2);
    assert_eq!(m.attachments[0].data_len, Some(13));
    assert_eq!(mb.attachments(MESSAGE as i64).unwrap()[0].declared_size, Some(700));
    assert_eq!(
        mb.attachment_bytes(MESSAGE as i64, ATTACHMENT as i64).unwrap(),
        b"payload bytes"
    );
    let bytes = sample(23);
    assert_eq!(OstMailbox::new(Store::open(&bytes).unwrap()).kind(), "ost-v23");
}

#[test]
fn the_adapter_keeps_the_kind_of_an_error() {
    let bytes = sample(36);
    let mb = OstMailbox::new(Store::open(&bytes).unwrap());
    assert_eq!(
        mb.message(0xABC).unwrap_err().display(),
        "not found: nid 0xABC is not in the node BTree"
    );
    assert_eq!(
        mb.attachment_bytes(MESSAGE as i64, EMBEDDED as i64).unwrap_err().display(),
        "unsupported: attachment is an embedded message, not a byte payload"
    );
    assert!(matches!(
        mb.messages(0x0FFF_FFFF),
        Err(ost_mcp::mailbox::Error::NotFound(_))
    ));
}
