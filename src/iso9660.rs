use vstd::prelude::*;

use crate::tree::{aggregate, files_childless, NodeModel, TreeNode};

verus! {

/// Bytes per logical sector.
pub const SECTOR_SIZE: u64 = 2048;

/// The sector that holds the primary volume descriptor.
pub const PRIMARY_VOLUME_DESCRIPTOR_SECTOR: u64 = 16;

/// Where the root directory record starts inside the primary volume descriptor.
pub const ROOT_RECORD_OFFSET: usize = 156;

/// Size of the fixed part of a directory record; the name follows it.
pub const RECORD_HEADER_LEN: usize = 33;

/// How many levels of sub-directories below the root are expanded; deeper
/// directories are kept but left empty.
pub const MAX_DEPTH: usize = 64;

/// Why reading an image failed.
#[derive(Debug, PartialEq, Eq, Structural)]
pub enum IsoError {
    /// The image is too short to hold the primary volume descriptor.
    IoError,
    /// The primary volume descriptor does not carry the ISO 9660 identifier.
    NotThisFormat,
    /// A directory record could not be decoded.
    MalformedRecord,
    /// The root directory's extent lies beyond the end of the image.
    ExtentReadError,
}

/// What the decoder reads from one directory record.
pub struct RecordView {
    pub extent_location: u32,
    pub data_length: u32,
    pub is_directory: bool,
    pub name: Seq<char>,
}

/// One decoded directory record.
#[derive(Debug)]
pub struct DirectoryRecord {
    pub extent_location: u32,
    pub data_length: u32,
    pub is_directory: bool,
    pub filename: String,
}

impl View for DirectoryRecord {
    type V = RecordView;

    open spec fn view(&self) -> RecordView {
        RecordView {
            extent_location: self.extent_location,
            data_length: self.data_length,
            is_directory: self.is_directory,
            name: self.filename@,
        }
    }
}

/// The text that lossy UTF-8 decoding makes of some bytes.
pub uninterp spec fn lossy_of(b: Seq<u8>) -> Seq<char>;

/// The lowercase form of some text.
pub uninterp spec fn lower_of(s: Seq<char>) -> Seq<char>;

/// Relies on `String::from_utf8_lossy`: the text depends on the bytes alone.
#[verifier::external_body]
fn decode_lossy(b: &[u8]) -> (r: String)
    ensures
        r@ == lossy_of(b@),
{
    String::from_utf8_lossy(b).into_owned()
}

/// Relies on `str::to_lowercase`: the result depends on the characters alone.
#[verifier::external_body]
fn lowercase(s: &str) -> (r: String)
    ensures
        r@ == lower_of(s@),
{
    s.to_lowercase()
}

/// Whether `c` is an ASCII decimal digit.
pub open spec fn is_digit(c: char) -> bool {
    '0' <= c <= '9'
}

/// The length of `s` once its trailing run of ASCII digits is removed.
pub open spec fn digits_start(s: Seq<char>) -> int
    decreases s.len(),
{
    if s.len() > 0 && is_digit(s.last()) {
        digits_start(s.drop_last())
    } else {
        s.len() as int
    }
}

/// `s` without a trailing version suffix: a `;` followed only by digits.
pub open spec fn strip_version(s: Seq<char>) -> Seq<char> {
    let d = digits_start(s);
    if d > 0 && s[d - 1] == ';' {
        s.subrange(0, d - 1)
    } else {
        s
    }
}

/// The name that a record with raw name bytes `raw` gets.
pub open spec fn decode_name(raw: Seq<u8>) -> Seq<char> {
    if raw.len() == 0 || (raw.len() == 1 && raw[0] == 0) {
        seq!['.']
    } else if raw.len() == 1 && raw[0] == 1 {
        seq!['.', '.']
    } else {
        lower_of(strip_version(lossy_of(raw)))
    }
}

/// The little-endian 32-bit number at `b[i..i + 4]`.
pub open spec fn le_u32(b: Seq<u8>, i: int) -> int {
    b[i] + 256 * b[i + 1] + 65536 * b[i + 2] + 16777216 * b[i + 3]
}

/// Whether a record can be decoded from `data`: the fixed header is there,
/// the record length is not 0, and the name lies inside `data`.
pub open spec fn record_fits(data: Seq<u8>) -> bool {
    &&& data.len() >= 33
    &&& data[0] != 0
    &&& 33 + data[32] <= data.len()
}

/// The record decoded from `data`, where `record_fits(data)`.
pub open spec fn decode_record(data: Seq<u8>) -> RecordView {
    RecordView {
        extent_location: le_u32(data, 2) as u32,
        data_length: le_u32(data, 10) as u32,
        is_directory: data[25] & 2 != 0,
        name: decode_name(data.subrange(33, 33 + data[32])),
    }
}

/// Reads the little-endian 32-bit number at `data[i..i + 4]`.
fn read_le_u32(data: &[u8], i: usize) -> (r: u32)
    requires
        i + 4 <= data@.len(),
    ensures
        r as int == le_u32(data@, i as int),
{
    (data[i] as u32) + (data[i + 1] as u32) * 256 + (data[i + 2] as u32) * 65536 + (data[i + 3]
        as u32) * 16777216
}

/// Removes a trailing version suffix (`;` and the digits after it).
fn strip_version_suffix(s: &str) -> (r: &str)
    ensures
        r@ == strip_version(s@),
{
    let n = s.unicode_len();
    let mut d: usize = n;
    assert(s@.subrange(0, n as int) =~= s@);
    loop
        invariant
            d <= n == s@.len(),
            digits_start(s@) == digits_start(s@.subrange(0, d as int)),
        ensures
            d == 0 || !is_digit(s@[d - 1]),
        decreases d,
    {
        if d == 0 || !('0' <= s.get_char(d - 1) && s.get_char(d - 1) <= '9') {
            break;
        }
        assert(s@.subrange(0, d as int).drop_last() =~= s@.subrange(0, d - 1));
        d = d - 1;
    }
    assert(d > 0 ==> s@.subrange(0, d as int).last() == s@[d - 1]);
    assert(digits_start(s@.subrange(0, d as int)) == d);
    if d > 0 && s.get_char(d - 1) == ';' {
        s.substring_char(0, d - 1)
    } else {
        s
    }
}

/// Decodes the name bytes of a record.
fn decode_record_name(raw: &[u8]) -> (r: String)
    ensures
        r@ == decode_name(raw@),
{
    if raw.len() == 0 || (raw.len() == 1 && raw[0] == 0) {
        proof {
            reveal_strlit(".");
        }
        String::from_str(".")
    } else if raw.len() == 1 && raw[0] == 1 {
        proof {
            reveal_strlit("..");
        }
        String::from_str("..")
    } else {
        let text = decode_lossy(raw);
        let stripped = strip_version_suffix(text.as_str());
        lowercase(stripped)
    }
}

/// Decodes the directory record at the start of `data`.
pub fn parse_directory_record(data: &[u8]) -> (r: Result<DirectoryRecord, IsoError>)
    ensures
        r is Ok <==> record_fits(data@),
        r matches Ok(rec) ==> rec@ == decode_record(data@),
        r matches Err(e) ==> e == IsoError::MalformedRecord,
{
    if data.len() < RECORD_HEADER_LEN {
        return Err(IsoError::MalformedRecord);
    }
    let length = data[0];
    if length == 0 {
        return Err(IsoError::MalformedRecord);
    }
    let filename_length = data[32] as usize;
    if filename_length > data.len() - RECORD_HEADER_LEN {
        return Err(IsoError::MalformedRecord);
    }
    let extent_location = read_le_u32(data, 2);
    let data_length = read_le_u32(data, 10);
    let file_flags = data[25];
    let is_directory = (file_flags & 0x02) != 0;
    let filename = decode_record_name(&data[RECORD_HEADER_LEN..RECORD_HEADER_LEN + filename_length]);
    Ok(DirectoryRecord { extent_location, data_length, is_directory, filename })
}


/// The bytes of the extent that starts at sector `loc` and is `len` bytes
/// long, or `None` where it runs past the end of the image.
pub open spec fn extent(image: Seq<u8>, loc: u32, len: u32) -> Option<Seq<u8>> {
    let start = loc as int * SECTOR_SIZE as int;
    if start + len <= image.len() {
        Some(image.subrange(start, start + len))
    } else {
        None
    }
}

/// The names of the self and parent entries.
pub open spec fn is_self_or_parent(name: Seq<char>) -> bool {
    name == seq!['.'] || name == seq!['.', '.']
}

/// The children of the directory whose extent is (`loc`, `len`), with
/// `depth` more levels of sub-directories expanded below it. An extent that
/// cannot be read gives no children.
pub open spec fn directory_entries(image: Seq<u8>, loc: u32, len: u32, depth: nat) -> Seq<
    NodeModel,
>
    decreases depth, 1int, 0int,
{
    match extent(image, loc, len) {
        Some(buf) => scan_entries(image, buf, 0, depth),
        None => Seq::empty(),
    }
}

/// The child nodes that the records of `buf` from `off` on give, left to
/// right: zero bytes are padding; a record that runs past `buf` ends the
/// scan; a record that cannot be decoded, and the self and parent entries,
/// give nothing; each record is left by its own length byte.
pub open spec fn scan_entries(image: Seq<u8>, buf: Seq<u8>, off: int, depth: nat) -> Seq<
    NodeModel,
>
    decreases depth, 0int, buf.len() - off,
{
    if off < 0 || off >= buf.len() {
        Seq::empty()
    } else if buf[off] == 0 {
        scan_entries(image, buf, off + 1, depth)
    } else if off + buf[off] > buf.len() {
        Seq::empty()
    } else {
        let rest = scan_entries(image, buf, off + buf[off], depth);
        let tail = buf.subrange(off, buf.len() as int);
        if record_fits(tail) {
            let r = decode_record(tail);
            if is_self_or_parent(r.name) {
                rest
            } else if r.is_directory {
                let node = NodeModel {
                    name: r.name,
                    size: 0,
                    is_directory: true,
                    children: if depth > 0 {
                        directory_entries(image, r.extent_location, r.data_length, (depth - 1) as nat)
                    } else {
                        Seq::empty()
                    },
                    file_location: None,
                    file_length: None,
                };
                seq![node] + rest
            } else {
                let node = NodeModel {
                    name: r.name,
                    size: r.data_length as u64,
                    is_directory: false,
                    children: Seq::empty(),
                    file_location: Some((r.extent_location as int * SECTOR_SIZE as int) as u64),
                    file_length: Some(r.data_length as u64),
                };
                seq![node] + rest
            }
        } else {
            rest
        }
    }
}

/// The bytes of an extent of the image, where they all lie inside it.
fn read_extent(image: &[u8], loc: u32, len: u32) -> (r: Option<&[u8]>)
    ensures
        r is Some <==> extent(image@, loc, len) is Some,
        r matches Some(b) ==> Some(b@) == extent(image@, loc, len),
{
    let start: u64 = loc as u64 * SECTOR_SIZE;
    let size: u64 = image.len() as u64;
    if start > size || len as u64 > size - start {
        None
    } else {
        Some(&image[start as usize..(start + len as u64) as usize])
    }
}

/// Appends to `parent` a node for each entry of the directory whose extent is
/// (`loc`, `len`), walking into sub-directories up to `depth` levels further.
/// Fails, leaving `parent` as it was, where the extent cannot be read.
fn parse_directory(image: &[u8], loc: u32, len: u32, parent: &mut TreeNode, depth: usize) -> (r:
    Result<(), IsoError>)
    requires
        old(parent).is_directory,
    ensures
        r is Err <==> extent(image@, loc, len) is None,
        r matches Err(e) ==> e == IsoError::ExtentReadError,
        final(parent).model() == (NodeModel {
            children: old(parent).model().children + directory_entries(
                image@,
                loc,
                len,
                depth as nat,
            ),
            ..old(parent).model()
        }),
    decreases depth,
{
    let buffer = match read_extent(image, loc, len) {
        Some(b) => b,
        None => {
            assert(old(parent).model().children + Seq::empty() =~= old(parent).model().children);
            return Err(IsoError::ExtentReadError);
        },
    };
    let ghost start_kids = old(parent).model().children;
    let self_name = String::from_str(".");
    let parent_name = String::from_str("..");
    proof {
        reveal_strlit(".");
        reveal_strlit("..");
        assert(self_name@ =~= seq!['.']);
        assert(parent_name@ =~= seq!['.', '.']);
    }
    let mut offset: usize = 0;
    while offset < buffer.len()
        invariant
            self_name@ == seq!['.'],
            parent_name@ == seq!['.', '.'],
            Some(buffer@) == extent(image@, loc, len),
            offset <= buffer@.len(),
            parent.is_directory,
            parent.model() == (NodeModel { children: parent.model().children, ..old(parent).model() }),
            parent.model().children + scan_entries(image@, buffer@, offset as int, depth as nat)
                == start_kids + scan_entries(image@, buffer@, 0, depth as nat),
        ensures
            scan_entries(image@, buffer@, offset as int, depth as nat) == Seq::<NodeModel>::empty(),
        decreases buffer@.len() - offset,
    {
        let ghost kids = parent.model().children;
        if buffer[offset] == 0 {
            offset += 1;
            continue;
        }
        let record_length = buffer[offset] as usize;
        if record_length > buffer.len() - offset {
            assert(kids + Seq::empty() =~= kids);
            break;
        }
        let ghost next = scan_entries(image@, buffer@, offset + record_length, depth as nat);
        let ghost tail = buffer@.subrange(offset as int, buffer@.len() as int);
        let parsed = parse_directory_record(&buffer[offset..buffer.len()]);
        if let Ok(record) = parsed {
            let is_dot = record.filename == self_name || record.filename == parent_name;
            if !is_dot {
                let DirectoryRecord { extent_location, data_length, is_directory, filename } =
                    record;
                let child = if is_directory {
                    let mut dir_node = TreeNode::new_directory(filename);
                    if depth > 0 {
                        let _ = parse_directory(image, extent_location, data_length, &mut dir_node, depth - 1);
                    }
                    assert(Seq::<NodeModel>::empty() + directory_entries(image@, extent_location, data_length, (depth - 1) as nat)
                        =~= directory_entries(image@, extent_location, data_length, (depth - 1) as nat));
                    dir_node
                } else {
                    TreeNode::new_file_with_location(
                        filename,
                        data_length as u64,
                        extent_location as u64 * SECTOR_SIZE,
                        data_length as u64,
                    )
                };
                assert(scan_entries(image@, buffer@, offset as int, depth as nat) == seq![child.model()] + next);
                parent.add_child(child);
                assert(kids.push(child.model()) + next =~= kids + (seq![child.model()] + next));
            } else {
                assert(scan_entries(image@, buffer@, offset as int, depth as nat) == next);
            }
        } else {
            assert(scan_entries(image@, buffer@, offset as int, depth as nat) == next);
        }
        offset += record_length;
    }
    assert(parent.model().children + Seq::<NodeModel>::empty() =~= parent.model().children);
    Ok(())
}


/// Byte offset of the primary volume descriptor.
pub open spec fn descriptor_start() -> int {
    PRIMARY_VOLUME_DESCRIPTOR_SECTOR as int * SECTOR_SIZE as int
}

/// Whether the primary volume descriptor carries the identifier `CD001`.
pub open spec fn has_iso_identifier(image: Seq<u8>) -> bool {
    image.subrange(descriptor_start() + 1, descriptor_start() + 6) == seq![
        0x43u8,
        0x44u8,
        0x30u8,
        0x30u8,
        0x31u8,
    ]
}

/// The bytes from the root directory record to the end of the descriptor.
pub open spec fn root_record_bytes(image: Seq<u8>) -> Seq<u8> {
    image.subrange(
        descriptor_start() + ROOT_RECORD_OFFSET as int,
        descriptor_start() + SECTOR_SIZE as int,
    )
}

/// The tree of an image before size aggregation: a root named "/" holding
/// the entries of the root directory's extent.
pub open spec fn unaggregated_tree(image: Seq<u8>, root: RecordView) -> NodeModel {
    NodeModel {
        name: seq!['/'],
        size: 0,
        is_directory: true,
        children: if root.is_directory {
            directory_entries(image, root.extent_location, root.data_length, MAX_DEPTH as nat)
        } else {
            Seq::empty()
        },
        file_location: None,
        file_length: None,
    }
}

/// What reading an ISO 9660 image gives: the aggregated tree, or the first
/// failure among a short image, a missing identifier, an undecodable root
/// record, and an unreadable root extent.
pub open spec fn iso_tree(image: Seq<u8>) -> Result<NodeModel, IsoError> {
    if image.len() < descriptor_start() + SECTOR_SIZE {
        Err(IsoError::IoError)
    } else if !has_iso_identifier(image) {
        Err(IsoError::NotThisFormat)
    } else if !record_fits(root_record_bytes(image)) {
        Err(IsoError::MalformedRecord)
    } else {
        let root = decode_record(root_record_bytes(image));
        if root.is_directory && root.data_length != 0 && extent(
            image,
            root.extent_location,
            root.data_length,
        ) is None {
            Err(IsoError::ExtentReadError)
        } else {
            Ok(aggregate(unaggregated_tree(image, root)))
        }
    }
}

/// Reads the directory tree of an ISO 9660 image held in memory.
pub fn parse_iso9660(image: &[u8]) -> (r: Result<TreeNode, IsoError>)
    ensures
        match iso_tree(image@) {
            Ok(m) => r matches Ok(t) && t.model() == m,
            Err(e) => r matches Err(f) && f == e,
        },
        r matches Ok(t) ==> no_self_or_parent(t.model()) && files_childless(t.model()),
{
    proof {
        lemma_iso_tree_clean(image@);
    }
    let start: usize = (PRIMARY_VOLUME_DESCRIPTOR_SECTOR * SECTOR_SIZE) as usize;
    let sector_len: usize = SECTOR_SIZE as usize;
    if image.len() < start + sector_len {
        return Err(IsoError::IoError);
    }
    let sector = &image[start..start + sector_len];
    if !(sector[1] == 0x43 && sector[2] == 0x44 && sector[3] == 0x30 && sector[4] == 0x30
        && sector[5] == 0x31) {
        assert(!has_iso_identifier(image@)) by {
            if has_iso_identifier(image@) {
                assert(image@.subrange(descriptor_start() + 1, descriptor_start() + 6)[0] == 0x43);
                assert(image@.subrange(descriptor_start() + 1, descriptor_start() + 6)[1] == 0x44);
                assert(image@.subrange(descriptor_start() + 1, descriptor_start() + 6)[2] == 0x30);
                assert(image@.subrange(descriptor_start() + 1, descriptor_start() + 6)[3] == 0x30);
                assert(image@.subrange(descriptor_start() + 1, descriptor_start() + 6)[4] == 0x31);
            }
        }
        return Err(IsoError::NotThisFormat);
    }
    assert(image@.subrange(descriptor_start() + 1, descriptor_start() + 6) =~= seq![
        0x43u8,
        0x44u8,
        0x30u8,
        0x30u8,
        0x31u8,
    ]);
    let root_bytes = &sector[ROOT_RECORD_OFFSET..sector_len];
    assert(root_bytes@ =~= root_record_bytes(image@));
    let root_record = match parse_directory_record(root_bytes) {
        Ok(rec) => rec,
        Err(e) => {
            return Err(e);
        },
    };
    proof {
        reveal_strlit("/");
    }
    let root_name = String::from_str("/");
    assert(root_name@ =~= seq!['/']);
    let mut root = TreeNode::new_directory(root_name);
    if root_record.is_directory && root_record.data_length != 0 {
        if let Err(e) = parse_directory(
            image,
            root_record.extent_location,
            root_record.data_length,
            &mut root,
            MAX_DEPTH,
        ) {
            return Err(e);
        }
    }
    proof {
        if root_record.is_directory && root_record.data_length == 0 {
            assert(directory_entries(image@, root_record.extent_location, 0, MAX_DEPTH as nat)
                =~= Seq::empty()) by {
                let ex = extent(image@, root_record.extent_location, 0);
                if ex is Some {
                    assert(scan_entries(image@, ex.unwrap(), 0, MAX_DEPTH as nat) == Seq::<NodeModel>::empty());
                }
            }
        }
        assert(root.model().children =~= unaggregated_tree(image@, root_record@).children);
    }
    root.calculate_directory_size();
    Ok(root)
}


/// No node below `m`, at any depth, is named like a self or parent entry.
pub open spec fn no_self_or_parent(m: NodeModel) -> bool
    decreases m,
{
    forall|i: int|
        0 <= i < m.children.len() ==> !is_self_or_parent((#[trigger] m.children[i]).name)
            && no_self_or_parent(m.children[i])
}

/// A node that the walk produces: never named like a self or parent entry,
/// with no such entry below it, and no file with children below it.
pub open spec fn clean_entry(m: NodeModel) -> bool {
    &&& !is_self_or_parent(m.name)
    &&& no_self_or_parent(m)
    &&& files_childless(m)
}

/// Decoding names: an empty name and a single 0x00 byte read as ".", a single
/// 0x01 byte as "..", and a name whose text ends in ";1" as the text before
/// that suffix, lowercased.
pub proof fn lemma_decode_name(raw: Seq<u8>, base: Seq<char>)
    ensures
        raw.len() == 0 ==> decode_name(raw) == seq!['.'],
        raw == seq![0u8] ==> decode_name(raw) == seq!['.'],
        raw == seq![1u8] ==> decode_name(raw) == seq!['.', '.'],
        raw.len() >= 2 && lossy_of(raw) == base + seq![';', '1'] ==> decode_name(raw) == lower_of(
            base,
        ),
{
    let s = base + seq![';', '1'];
    assert(s.drop_last() =~= base + seq![';']);
    assert((base + seq![';']).last() == ';');
    assert(!is_digit(';') && is_digit('1'));
    assert(digits_start(base + seq![';']) == base.len() + 1);
    assert(digits_start(s) == base.len() + 1);
    assert(s.subrange(0, base.len() as int) =~= base);
}

/// A record whose length byte reaches past the end of the buffer ends the
/// scan: it gives no entry, and nothing after it is read.
pub proof fn lemma_overlong_record_ends_scan(image: Seq<u8>, buf: Seq<u8>, off: int, depth: nat)
    requires
        0 <= off < buf.len(),
        buf[off] != 0,
        off + buf[off] > buf.len(),
    ensures
        scan_entries(image, buf, off, depth) == Seq::<NodeModel>::empty(),
{
}

/// Every node that a scan produces is clean.
pub proof fn lemma_scan_entries_clean(image: Seq<u8>, buf: Seq<u8>, off: int, depth: nat)
    ensures
        forall|i: int|
            0 <= i < scan_entries(image, buf, off, depth).len() ==> clean_entry(
                #[trigger] scan_entries(image, buf, off, depth)[i],
            ),
    decreases depth, 0int, buf.len() - off,
{
    let res = scan_entries(image, buf, off, depth);
    if off < 0 || off >= buf.len() {
    } else if buf[off] == 0 {
        lemma_scan_entries_clean(image, buf, off + 1, depth);
        assert(res == scan_entries(image, buf, off + 1, depth));
    } else if off + buf[off] > buf.len() {
    } else {
        let rest = scan_entries(image, buf, off + buf[off], depth);
        lemma_scan_entries_clean(image, buf, off + buf[off], depth);
        let tail = buf.subrange(off, buf.len() as int);
        if record_fits(tail) && !is_self_or_parent(decode_record(tail).name) {
            let r = decode_record(tail);
            let node = res[0];
            assert(res =~= seq![node] + rest);
            if r.is_directory && depth > 0 {
                let kids = directory_entries(image, r.extent_location, r.data_length, (depth - 1) as nat);
                lemma_directory_entries_clean(image, r.extent_location, r.data_length, (depth - 1) as nat);
                assert(node.children == kids);
                assert forall|i: int| 0 <= i < node.children.len() implies !is_self_or_parent(
                    (#[trigger] node.children[i]).name,
                ) && no_self_or_parent(node.children[i]) && files_childless(node.children[i]) by {
                    assert(clean_entry(kids[i]));
                }
            }
            assert(no_self_or_parent(node));
            assert(files_childless(node));
            assert(clean_entry(node));
            assert forall|i: int| 0 <= i < res.len() implies clean_entry(#[trigger] res[i]) by {
                if i > 0 {
                    assert(res[i] == rest[i - 1]);
                }
            }
        } else {
            assert(res == rest);
        }
    }
}

/// Every node among a directory's entries is clean.
pub proof fn lemma_directory_entries_clean(image: Seq<u8>, loc: u32, len: u32, depth: nat)
    ensures
        forall|i: int|
            0 <= i < directory_entries(image, loc, len, depth).len() ==> clean_entry(
                #[trigger] directory_entries(image, loc, len, depth)[i],
            ),
    decreases depth, 1int, 0int,
{
    if let Some(buf) = extent(image, loc, len) {
        lemma_scan_entries_clean(image, buf, 0, depth);
        assert(directory_entries(image, loc, len, depth) == scan_entries(image, buf, 0, depth));
    }
}

/// Size aggregation keeps each node's name and kind, the number of its
/// children, and the properties of being clean.
pub proof fn lemma_aggregate_keeps_clean(m: NodeModel)
    ensures
        aggregate(m).name == m.name,
        aggregate(m).is_directory == m.is_directory,
        aggregate(m).children.len() == m.children.len(),
        no_self_or_parent(m) ==> no_self_or_parent(aggregate(m)),
        files_childless(m) ==> files_childless(aggregate(m)),
    decreases m,
{
    let a = aggregate(m);
    if m.is_directory {
        assert forall|i: int| 0 <= i < m.children.len() implies #[trigger] a.children[i]
            == aggregate(m.children[i]) && a.children[i].name == m.children[i].name && (
        no_self_or_parent(m.children[i]) ==> no_self_or_parent(a.children[i])) && (files_childless(
            m.children[i],
        ) ==> files_childless(a.children[i])) by {
            lemma_aggregate_keeps_clean(m.children[i]);
        }
    }
}


/// In every tree read from an image, no directory holds a self or parent
/// entry, at any depth, and no file has children.
pub proof fn lemma_iso_tree_clean(image: Seq<u8>)
    ensures
        iso_tree(image) matches Ok(m) ==> no_self_or_parent(m) && files_childless(m),
{
    if iso_tree(image) is Ok {
        let root = decode_record(root_record_bytes(image));
        let t = unaggregated_tree(image, root);
        if root.is_directory {
            lemma_directory_entries_clean(
                image,
                root.extent_location,
                root.data_length,
                MAX_DEPTH as nat,
            );
        }
        assert forall|i: int| 0 <= i < t.children.len() implies !is_self_or_parent(
            (#[trigger] t.children[i]).name,
        ) && no_self_or_parent(t.children[i]) && files_childless(t.children[i]) by {
            assert(clean_entry(t.children[i]));
        }
        assert(no_self_or_parent(t));
        assert(files_childless(t));
        lemma_aggregate_keeps_clean(t);
    }
}

} // verus!
