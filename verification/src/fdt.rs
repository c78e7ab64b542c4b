//! Flattened device tree (devicetree blob): header, nodes and properties.
use vstd::prelude::*;
use vstd::string::StringSliceAdditionalSpecFns;
use vstd::utf8::valid_utf8;

use crate::endian::{be_u32_at, BigEndianU32};
use crate::reader::{
    checked_next_multiple_of_4, find_byte, first_index_of, lemma_add_aligned4, lemma_first_index_of, lemma_round_up4,
    round_up4, utf8_str, FdtNodeReader,
};
use crate::text::{prefixed_hex, push_prefixed_hex};

verus! {

/// Token that opens a node; the node's name follows it.
pub const FDT_BEGIN_NODE: u32 = 0x01;

/// Token that closes a node.
pub const FDT_END_NODE: u32 = 0x02;

/// Token that introduces a property: its length, its name offset, then its data.
pub const FDT_PROP: u32 = 0x03;

/// Token that carries nothing.
pub const FDT_NOP: u32 = 0x04;

/// Token that ends the structure block.
pub const FDT_END: u32 = 0x09;

/// The value that the `magic` field of a valid header holds.
pub const FDT_MAGIC: u32 = 0xd00d_feed;

/// The number of bytes of the header at the start of a blob.
pub const FDT_HEADER_SIZE: usize = 40;

/// Why a blob was refused.
#[derive(Debug, Clone, Copy)]
pub enum FdtError {
    /// No blob was given.
    NullPtr,
    /// The header's magic value is not `FDT_MAGIC`.
    MagicInvalid { expected: BigEndianU32<true>, got: BigEndianU32<true> },
}

/// Why a string of the blob could not be read.
#[derive(Debug, Clone, Copy, PartialEq, Eq)]
pub enum ParseError {
    /// No nul byte ends the string.
    NoNullByte,
    /// The string starts past the end of the strings block.
    StringOutOfBounds,
    /// The string is not valid UTF-8.
    InvalidUtf8,
}

impl FdtError {
    /// A sentence that says what went wrong.
    pub fn to_string(&self) -> (r: String)
        ensures
            r@ == match self {
                FdtError::NullPtr => "Null pointer was provided for parsing the device tree"@,
                FdtError::MagicInvalid { expected, got } => "Invalid Magic value was read: expected="@
                    + prefixed_hex(expected@ as nat, 0) + ",got="@ + prefixed_hex(got@ as nat, 0),
            },
    {
        match self {
            FdtError::NullPtr => String::from_str("Null pointer was provided for parsing the device tree"),
            FdtError::MagicInvalid { expected, got } => {
                let mut out = String::from_str("Invalid Magic value was read: expected=");
                push_prefixed_hex(&mut out, expected.get() as u64, 0);
                out.append(",got=");
                push_prefixed_hex(&mut out, got.get() as u64, 0);
                out
            },
        }
    }
}

impl ParseError {
    /// A sentence that says what went wrong.
    pub fn to_string(&self) -> (r: String)
        ensures
            r@ == match self {
                ParseError::NoNullByte => "A string in the tree has no null terminator"@,
                ParseError::StringOutOfBounds => "A string is located out of bounds"@,
                ParseError::InvalidUtf8 => "Invalid UTF-8 characters when parsing string"@,
            },
    {
        match self {
            ParseError::NoNullByte => String::from_str("A string in the tree has no null terminator"),
            ParseError::StringOutOfBounds => String::from_str("A string is located out of bounds"),
            ParseError::InvalidUtf8 => String::from_str("Invalid UTF-8 characters when parsing string"),
        }
    }
}

/// The structure block is malformed: a walk over it runs off its bytes,
/// overflows, or meets an unknown token.
#[derive(Debug, Clone, Copy, PartialEq, Eq)]
pub struct MalformedStructure;

/// The header of a flattened device tree, each field as it is stored: big-endian.
#[derive(Debug, Clone, Copy)]
pub struct FdtHeader {
    /// This field shall contain the value `0xd00d_feed` (big-endian).
    pub magic: BigEndianU32<true>,
    /// The total size in bytes of the devicetree data structure: header, memory
    /// reservation block, structure block, strings block and any free space.
    pub totalsize: BigEndianU32<false>,
    /// The offset in bytes of the structure block from the beginning of the header.
    pub off_dt_struct: BigEndianU32<false>,
    /// The offset in bytes of the strings block from the beginning of the header.
    pub off_dt_strings: BigEndianU32<false>,
    /// The offset in bytes of the memory reservation block from the beginning of the header.
    pub off_mem_rsvmap: BigEndianU32<false>,
    /// The version of the devicetree data structure.
    pub version: BigEndianU32<false>,
    /// The lowest version with which the version used is backwards compatible.
    pub last_comp_version: BigEndianU32<false>,
    /// The physical ID of the system's boot CPU.
    pub boot_cpuid_phys: BigEndianU32<false>,
    /// The length in bytes of the strings block.
    pub size_dt_strings: BigEndianU32<false>,
    /// The length in bytes of the structure block.
    pub size_dt_struct: BigEndianU32<false>,
}

impl FdtHeader {
    /// The header is the one stored in the first 40 bytes of `b`.
    pub open spec fn is_stored_in(self, b: Seq<u8>) -> bool {
        &&& self.magic@ == be_u32_at(b, 0)
        &&& self.totalsize@ == be_u32_at(b, 4)
        &&& self.off_dt_struct@ == be_u32_at(b, 8)
        &&& self.off_dt_strings@ == be_u32_at(b, 12)
        &&& self.off_mem_rsvmap@ == be_u32_at(b, 16)
        &&& self.version@ == be_u32_at(b, 20)
        &&& self.last_comp_version@ == be_u32_at(b, 24)
        &&& self.boot_cpuid_phys@ == be_u32_at(b, 28)
        &&& self.size_dt_strings@ == be_u32_at(b, 32)
        &&& self.size_dt_struct@ == be_u32_at(b, 36)
    }

    /// Reads the header stored in the first 40 bytes of `bytes`.
    pub fn read_from(bytes: &[u8]) -> (r: Self)
        requires
            bytes@.len() >= FDT_HEADER_SIZE,
        ensures
            r.is_stored_in(bytes@),
    {
        FdtHeader {
            magic: BigEndianU32::from_be_bytes(bytes[0], bytes[1], bytes[2], bytes[3]),
            totalsize: BigEndianU32::from_be_bytes(bytes[4], bytes[5], bytes[6], bytes[7]),
            off_dt_struct: BigEndianU32::from_be_bytes(bytes[8], bytes[9], bytes[10], bytes[11]),
            off_dt_strings: BigEndianU32::from_be_bytes(bytes[12], bytes[13], bytes[14], bytes[15]),
            off_mem_rsvmap: BigEndianU32::from_be_bytes(bytes[16], bytes[17], bytes[18], bytes[19]),
            version: BigEndianU32::from_be_bytes(bytes[20], bytes[21], bytes[22], bytes[23]),
            last_comp_version: BigEndianU32::from_be_bytes(
                bytes[24],
                bytes[25],
                bytes[26],
                bytes[27],
            ),
            boot_cpuid_phys: BigEndianU32::from_be_bytes(bytes[28], bytes[29], bytes[30], bytes[31]),
            size_dt_strings: BigEndianU32::from_be_bytes(bytes[32], bytes[33], bytes[34], bytes[35]),
            size_dt_struct: BigEndianU32::from_be_bytes(bytes[36], bytes[37], bytes[38], bytes[39]),
        }
    }
}

/// What a search for a child node comes to.
pub ghost enum FindOutcome {
    /// The child's `FDT_BEGIN_NODE` token stands at this index.
    Found(int),
    /// There is no such child.
    Absent,
    /// The walk runs off the bytes, overflows, or meets an unknown token.
    Malformed,
}

/// A node name without its unit address: the bytes before the first `@`.
pub open spec fn unit_name(name: Seq<u8>) -> Seq<u8> {
    match first_index_of(name, 0x40u8, 0) {
        Some(k) => name.subrange(0, k),
        None => name,
    }
}

/// The index of the first byte at or after `i` that is not a `/`.
pub open spec fn skip_leading_slashes(t: Seq<u8>, i: int) -> int
    decreases t.len() - i,
{
    if 0 <= i < t.len() && t[i] == 0x2fu8 {
        skip_leading_slashes(t, i + 1)
    } else {
        i
    }
}

/// The end of `t.subrange(lo, j)` once its trailing `/` are removed.
pub open spec fn skip_trailing_slashes(t: Seq<u8>, lo: int, j: int) -> int
    decreases j - lo,
{
    if lo < j <= t.len() && t[j - 1] == 0x2fu8 {
        skip_trailing_slashes(t, lo, j - 1)
    } else {
        j
    }
}

/// `t` without the `/` at its start and at its end.
pub open spec fn trim_slashes(t: Seq<u8>) -> Seq<u8> {
    let lo = skip_leading_slashes(t, 0);
    t.subrange(lo, skip_trailing_slashes(t, lo, t.len() as int))
}

/// The search that `Node::find` makes for a child named `target`, from the
/// token at index `pos` of `s`, at nesting depth `depth`.
pub open spec fn find_walk(s: Seq<u8>, pos: int, depth: int, target: Seq<u8>) -> FindOutcome
    decreases s.len() - pos,
{
    if pos < 0 || pos + 4 > s.len() {
        FindOutcome::Malformed
    } else {
        let token = be_u32_at(s, pos);
        let p = pos + 4;
        if token == FDT_BEGIN_NODE {
            match first_index_of(s, 0, p) {
                None => FindOutcome::Absent,
                Some(k) => {
                    proof {
                        lemma_first_index_of(s, 0, p);
                    }
                    let next = p + round_up4(k - p + 1);
                    let name = s.subrange(p, k);
                    if next > usize::MAX {
                        FindOutcome::Malformed
                    } else if !valid_utf8(name) {
                        FindOutcome::Absent
                    } else if depth == 1 && unit_name(name) == target {
                        FindOutcome::Found(pos)
                    } else if depth + 1 > i32::MAX || next > s.len() {
                        FindOutcome::Malformed
                    } else {
                        find_walk(s, next, depth + 1, target)
                    }
                },
            }
        } else if token == FDT_PROP {
            if p + 8 > s.len() {
                FindOutcome::Malformed
            } else {
                let next = p + 8 + round_up4(be_u32_at(s, p) as int);
                if next > s.len() {
                    FindOutcome::Malformed
                } else {
                    find_walk(s, next, depth, target)
                }
            }
        } else if token == FDT_END_NODE {
            if depth <= 1 {
                FindOutcome::Absent
            } else {
                find_walk(s, p, depth - 1, target)
            }
        } else if token == FDT_END {
            FindOutcome::Absent
        } else if token == FDT_NOP {
            find_walk(s, p, depth, target)
        } else {
            FindOutcome::Malformed
        }
    }
}

/// A node of the structure block: the block and the index at which the
/// node's `FDT_BEGIN_NODE` token stands.
#[derive(Clone, Copy)]
pub struct Node<'a> {
    blob: &'a [u8],
    offset: usize,
}

impl<'a> Node<'a> {
    #[verifier::type_invariant]
    spec fn offset_in_blob(self) -> bool {
        self.offset <= self.blob@.len()
    }

    /// The structure block the node lies in.
    pub closed spec fn blob_view(self) -> Seq<u8> {
        self.blob@
    }

    /// The index in the block of the node's first token.
    pub closed spec fn offset_view(self) -> int {
        self.offset as int
    }

    /// The bytes from the node's first token to the end of the block.
    pub open spec fn rest(self) -> Seq<u8> {
        self.blob_view().subrange(self.offset_view(), self.blob_view().len() as int)
    }

    /// The block is held as a slice, so its length and the node's index fit
    /// in a `usize`, and so do the bytes from the node on.
    pub proof fn lemma_blob_fits(self)
        ensures
            self.blob_view().len() <= usize::MAX,
            0 <= self.offset_view() <= usize::MAX,
            self.offset_view() <= self.blob_view().len() ==> self.rest().len() <= usize::MAX,
    {
        assert(self.blob@.len() == self.blob.len());
    }

    /// The node whose first token starts `blob`.
    pub fn new(blob: &'a [u8]) -> (r: Self)
        ensures
            r.blob_view() == blob@,
            r.offset_view() == 0,
    {
        Self { blob, offset: 0 }
    }

    fn copy_with_offset(&self, offset: usize) -> (r: Self)
        requires
            offset <= self.blob_view().len(),
        ensures
            r.blob_view() == self.blob_view(),
            r.offset_view() == offset,
    {
        Self { blob: self.blob, offset }
    }

    fn as_node_reader(&self) -> (r: FdtNodeReader<'_>)
        ensures
            r.bytes() == self.rest(),
            r.pos() == 0,
    {
        proof {
            use_type_invariant(self);
        }
        FdtNodeReader::new(&self.blob[self.offset..self.blob.len()])
    }

    /// Finds a child of this node by name, one level deeper than the node.
    /// Leading and trailing `/` of `target` are ignored, and a child's unit
    /// address (from `@` on) is left out of the comparison. An empty target
    /// names the node itself.
    ///
    /// The search ends with the node's own `FDT_END_NODE`. A found child is
    /// given as a node of the same block whose index is that of the child's
    /// `FDT_BEGIN_NODE` token in the block.
    pub fn find(&self, target: &str) -> (r: Option<Node<'_>>)
        requires
            trim_slashes(target.spec_bytes()).len() > 0 ==> find_walk(
                self.rest(),
                0,
                0,
                trim_slashes(target.spec_bytes()),
            ) != FindOutcome::Malformed,
        ensures
            r matches Some(n) ==> n.offset_view() <= n.blob_view().len(),
            ({
                let t = trim_slashes(target.spec_bytes());
                if t.len() == 0 {
                    r == Some(*self)
                } else {
                    match find_walk(self.rest(), 0, 0, t) {
                        FindOutcome::Found(p) => r matches Some(n) && n.blob_view() == self.blob_view()
                            && n.offset_view() == self.offset_view() + p,
                        _ => r is None,
                    }
                }
            }),
    {
        match self.try_find(target) {
            Ok(r) => r,
            Err(_) => {
                proof {
                    assert(false);
                }
                None
            },
        }
    }

    /// Finds a child of this node by name as `find` does, and reports
    /// malformed bytes, where `find` would fail, as an error.
    pub fn try_find(&self, target: &str) -> (r: Result<Option<Node<'_>>, MalformedStructure>)
        ensures
            r matches Ok(Some(n)) ==> n.offset_view() <= n.blob_view().len(),
            ({
                let t = trim_slashes(target.spec_bytes());
                if t.len() == 0 {
                    r == Ok::<Option<Node>, MalformedStructure>(Some(*self))
                } else {
                    match find_walk(self.rest(), 0, 0, t) {
                        FindOutcome::Found(p) => r matches Ok(Some(n)) && n.blob_view()
                            == self.blob_view() && n.offset_view() == self.offset_view() + p,
                        FindOutcome::Absent => r matches Ok(None),
                        FindOutcome::Malformed => r is Err,
                    }
                }
            }),
    {
        proof {
            use_type_invariant(self);
        }
        let t = target.as_bytes();
        let (lo, hi) = trim_slashes_range(t);
        if lo == hi {
            return Ok(Some(*self));
        }
        let wanted: &[u8] = &t[lo..hi];
        let ghost goal = find_walk(self.rest(), 0, 0, wanted@);
        let mut reader = self.as_node_reader();
        let mut depth: i32 = 0;
        proof {
            assert(self.blob@.len() == self.blob.len());
        }
        loop
            invariant
                wanted@ == trim_slashes(target.spec_bytes()),
                wanted@.len() > 0,
                goal == find_walk(self.rest(), 0, 0, wanted@),
                reader.bytes() == self.rest(),
                self.blob@.len() <= usize::MAX,
                self.rest().len() <= usize::MAX,
                self.offset + self.rest().len() == self.blob@.len(),
                0 <= depth,
                0 <= reader.pos() <= self.rest().len(),
                find_walk(self.rest(), reader.pos(), depth as int, wanted@) == goal,
            decreases self.rest().len() - reader.pos(),
        {
            if reader.len() < 4 || reader.position() > reader.len() - 4 {
                return Err(MalformedStructure);
            }
            let offset = reader.position();
            let token = reader.read_u32();
            if token == FDT_BEGIN_NODE {
                let p = reader.position();
                match reader.cstr_end() {
                    None => {
                        return Ok(None);
                    },
                    Some(k) => {
                        proof {
                            lemma_first_index_of(reader.bytes(), 0, p as int);
                        }
                        match checked_next_multiple_of_4(k - p + 1) {
                            None => {
                                return Err(MalformedStructure);
                            },
                            Some(padded) => {
                                if padded > usize::MAX - p {
                                    return Err(MalformedStructure);
                                }
                            },
                        }
                    },
                }
                let name = reader.read_cstr_as_str();
                match name {
                    None => {
                        return Ok(None);
                    },
                    Some(name) => {
                        let name_bytes = name.as_bytes();
                        let (unit_lo, unit_hi) = unit_name_range(name_bytes);
                        if depth == 1 && bytes_equal(&name_bytes[unit_lo..unit_hi], wanted) {
                            assert(offset + 4 <= self.rest().len());
                            assert(self.offset + offset <= self.blob@.len());
                            let found = self.offset + offset;
                            return Ok(Some(self.copy_with_offset(found)));
                        }
                        if depth == i32::MAX || reader.position() > reader.len() {
                            return Err(MalformedStructure);
                        }
                        depth = depth + 1;
                    },
                }
            } else if token == FDT_PROP {
                if reader.len() - reader.position() < 8 {
                    return Err(MalformedStructure);
                }
                let len = reader.read_u32();
                let _ = reader.read_u32();
                match checked_next_multiple_of_4(len as usize) {
                    None => {
                        return Err(MalformedStructure);
                    },
                    Some(padded) => {
                        proof {
                            lemma_round_up4(len as int);
                        }
                        if padded > reader.len() - reader.position() {
                            return Err(MalformedStructure);
                        }
                    },
                }
                let _ = reader.read_slice(len as usize);
            } else if token == FDT_END_NODE {
                if depth <= 1 {
                    return Ok(None);
                }
                depth = depth - 1;
            } else if token == FDT_END {
                return Ok(None);
            } else if token == FDT_NOP {
            } else {
                return Err(MalformedStructure);
            }
        }
    }
}

/// The bounds of `t` once the `/` at its start and at its end are removed.
fn trim_slashes_range(t: &[u8]) -> (r: (usize, usize))
    ensures
        r.0 <= r.1 <= t@.len(),
        t@.subrange(r.0 as int, r.1 as int) == trim_slashes(t@),
{
    let mut lo: usize = 0;
    while lo < t.len() && t[lo] == 0x2fu8
        invariant
            lo <= t@.len(),
            skip_leading_slashes(t@, lo as int) == skip_leading_slashes(t@, 0),
        decreases t@.len() - lo,
    {
        lo = lo + 1;
    }
    let mut hi: usize = t.len();
    while hi > lo && t[hi - 1] == 0x2fu8
        invariant
            lo <= hi <= t@.len(),
            lo == skip_leading_slashes(t@, 0),
            skip_trailing_slashes(t@, lo as int, hi as int) == skip_trailing_slashes(
                t@,
                lo as int,
                t@.len() as int,
            ),
        decreases hi - lo,
    {
        hi = hi - 1;
    }
    (lo, hi)
}

/// The bounds in `name` of its unit name: the bytes before the first `@`.
fn unit_name_range(name: &[u8]) -> (r: (usize, usize))
    ensures
        r.0 <= r.1 <= name@.len(),
        name@.subrange(r.0 as int, r.1 as int) == unit_name(name@),
{
    match find_byte(name, 0x40u8, 0) {
        Some(k) => {
            proof {
                lemma_first_index_of(name@, 0x40u8, 0);
            }
            (0, k)
        },
        None => {
            assert(name@.subrange(0, name@.len() as int) == name@);
            (0, name.len())
        },
    }
}

/// Whether `a` and `b` hold the same bytes.
fn bytes_equal(a: &[u8], b: &[u8]) -> (r: bool)
    ensures
        r == (a@ == b@),
{
    if a.len() != b.len() {
        return false;
    }
    let mut i: usize = 0;
    while i < a.len()
        invariant
            a@.len() == b@.len(),
            i <= a@.len(),
            forall|j: int| 0 <= j < i ==> a@[j] == b@[j],
        decreases a@.len() - i,
    {
        if a[i] != b[i] {
            return false;
        }
        i = i + 1;
    }
    assert(a@ =~= b@);
    true
}

/// A flattened device tree held as its bytes and its header.
pub struct Fdt<'a> {
    /// All the bytes of the blob, `totalsize` of them.
    dtb_bytes: &'a [u8],
    /// The header, read once from the start of the blob.
    header: FdtHeader,
}

impl<'a> Fdt<'a> {
    /// The bytes of the blob.
    pub closed spec fn bytes_view(&self) -> Seq<u8> {
        self.dtb_bytes@
    }

    /// The header read from the blob.
    pub closed spec fn header_view(&self) -> FdtHeader {
        self.header
    }

    /// The structure block lies within the blob.
    pub open spec fn struct_block_in_bounds(&self) -> bool {
        self.header_view().off_dt_struct@ + self.header_view().size_dt_struct@
            <= self.bytes_view().len()
    }

    /// The bytes of the structure block.
    pub open spec fn struct_block(&self) -> Seq<u8> {
        self.bytes_view().subrange(
            self.header_view().off_dt_struct@ as int,
            self.header_view().off_dt_struct@ + self.header_view().size_dt_struct@,
        )
    }

    /// The strings block lies within the blob.
    pub open spec fn strings_block_in_bounds(&self) -> bool {
        self.header_view().off_dt_strings@ + self.header_view().size_dt_strings@
            <= self.bytes_view().len()
    }

    /// The bytes of the strings block.
    pub open spec fn strings_block(&self) -> Seq<u8> {
        self.bytes_view().subrange(
            self.header_view().off_dt_strings@ as int,
            self.header_view().off_dt_strings@ + self.header_view().size_dt_strings@,
        )
    }

    /// The magic value of a valid header, big-endian.
    pub fn valid_magic() -> (r: BigEndianU32<true>)
        ensures
            r@ == FDT_MAGIC,
    {
        BigEndianU32::new(FDT_MAGIC)
    }

    /// Takes the blob that starts `bytes`. The header must hold the magic
    /// value; the blob is then the first `totalsize` bytes.
    pub fn from_bytes(bytes: &'a [u8]) -> (r: Result<Self, FdtError>)
        requires
            bytes@.len() >= FDT_HEADER_SIZE,
            be_u32_at(bytes@, 0) == FDT_MAGIC ==> be_u32_at(bytes@, 4) <= bytes@.len(),
        ensures
            be_u32_at(bytes@, 0) == FDT_MAGIC <==> r is Ok,
            r matches Ok(fdt) ==> {
                &&& fdt.header_view().is_stored_in(bytes@)
                &&& fdt.bytes_view() == bytes@.subrange(0, be_u32_at(bytes@, 4) as int)
            },
            r matches Err(e) ==> e matches FdtError::MagicInvalid { expected, got } && expected@
                == FDT_MAGIC && got@ == be_u32_at(bytes@, 0),
    {
        let header = FdtHeader::read_from(bytes);
        if header.magic.get() != FDT_MAGIC {
            return Err(FdtError::MagicInvalid { expected: Self::valid_magic(), got: header.magic });
        }
        let dtb_size = header.totalsize.get() as usize;
        let dtb_bytes = &bytes[0..dtb_size];
        Ok(Self { dtb_bytes, header })
    }

    /// The header of the blob.
    pub fn header(&self) -> (r: FdtHeader)
        ensures
            r == self.header_view(),
    {
        self.header
    }

    /// The root node: the first node of the structure block.
    pub fn root(&self) -> (r: Node<'_>)
        requires
            self.struct_block_in_bounds(),
        ensures
            r.blob_view() == self.struct_block(),
            r.offset_view() == 0,
    {
        let blob = self.struct_bytes();
        Node::new(blob)
    }

    /// Reads the name that starts `name_offset` bytes into the strings block:
    /// the bytes up to the first nul, as UTF-8 text.
    pub fn get_name(&self, name_offset: &NameOffset) -> (r: Result<&str, ParseError>)
        requires
            self.strings_block_in_bounds(),
        ensures
            ({
                let strings = self.strings_block();
                let n = name_offset@ as int;
                if n > strings.len() {
                    r == Err::<&str, ParseError>(ParseError::StringOutOfBounds)
                } else {
                    match first_index_of(strings, 0, n) {
                        None => r == Err::<&str, ParseError>(ParseError::NoNullByte),
                        Some(k) => if valid_utf8(strings.subrange(n, k)) {
                            r matches Ok(s) && s.spec_bytes() == strings.subrange(n, k)
                        } else {
                            r == Err::<&str, ParseError>(ParseError::InvalidUtf8)
                        },
                    }
                }
            }),
    {
        let offset = self.header.off_dt_strings.get() as usize;
        let size = self.header.size_dt_strings.get() as usize;
        assert(self.dtb_bytes@.len() == self.dtb_bytes.len());
        let end = offset + size;
        let dtb: &'a [u8] = self.dtb_bytes;
        let strings_blob = &dtb[offset..end];
        let name_offset = name_offset.0 as usize;
        if name_offset > strings_blob.len() {
            return Err(ParseError::StringOutOfBounds);
        }
        match find_byte(strings_blob, 0, name_offset) {
            None => Err(ParseError::NoNullByte),
            Some(k) => {
                proof {
                    lemma_first_index_of(strings_blob@, 0, name_offset as int);
                }
                match utf8_str(&strings_blob[name_offset..k]) {
                    Some(name) => Ok(name),
                    None => Err(ParseError::InvalidUtf8),
                }
            },
        }
    }

    fn struct_bytes(&self) -> (r: &[u8])
        requires
            self.struct_block_in_bounds(),
        ensures
            r@ == self.struct_block(),
    {
        let offset = self.header.off_dt_struct.get() as usize;
        let size = self.header.size_dt_struct.get() as usize;
        assert(self.dtb_bytes@.len() == self.dtb_bytes.len());
        let end = offset + size;
        &self.dtb_bytes[offset..end]
    }
}

/// Where a property's name starts in the strings block.
#[derive(Debug, Clone, Copy, PartialEq, Eq)]
pub struct NameOffset(u32);

impl View for NameOffset {
    type V = u32;

    closed spec fn view(&self) -> u32 {
        self.0
    }
}

/// A property of a node: its data and where its name starts in the strings block.
#[derive(Debug)]
pub struct Property<'a> {
    pub data: &'a [u8],
    pub name_offset: NameOffset,
}

/// What one step of a property iteration comes to.
pub ghost enum PropStep {
    /// A property of the node itself: its data is `data_len` bytes from
    /// index `data_start`; the walk stops at `pos` with nesting depth `depth`.
    Yield { data_start: int, data_len: int, name_offset: u32, pos: int, depth: int },
    /// The node, or the block, ends; the walk stops at `pos` with nesting depth `depth`.
    Stop { pos: int, depth: int },
    /// The walk runs off the bytes, overflows, or meets an unknown token.
    Malformed,
}

/// The walk that `PropertyIter::next` makes for the next property of the
/// node, from the token at index `pos` of `s`, at nesting depth `depth`
/// (the node's own properties are at depth 0).
pub open spec fn prop_walk(s: Seq<u8>, pos: int, depth: int) -> PropStep
    decreases s.len() - pos,
{
    if pos < 0 || pos + 4 > s.len() {
        PropStep::Malformed
    } else {
        let token = be_u32_at(s, pos);
        let p = pos + 4;
        if token == FDT_BEGIN_NODE {
            if depth + 1 > i32::MAX {
                PropStep::Malformed
            } else {
                match first_index_of(s, 0, p) {
                    None => prop_walk(s, p, depth + 1),
                    Some(k) => {
                        proof {
                            lemma_first_index_of(s, 0, p);
                        }
                        let next = p + round_up4(k - p + 1);
                        if next > s.len() {
                            PropStep::Malformed
                        } else {
                            prop_walk(s, next, depth + 1)
                        }
                    },
                }
            }
        } else if token == FDT_END_NODE {
            if depth == 0 {
                PropStep::Stop { pos: p, depth: 0 }
            } else if depth - 1 < i32::MIN {
                PropStep::Malformed
            } else {
                prop_walk(s, p, depth - 1)
            }
        } else if token == FDT_PROP {
            if p + 8 > s.len() {
                PropStep::Malformed
            } else {
                let len = be_u32_at(s, p) as int;
                let next = p + 8 + round_up4(len);
                if depth == 0 {
                    if p + 8 + len > s.len() || next > usize::MAX {
                        PropStep::Malformed
                    } else {
                        PropStep::Yield {
                            data_start: p + 8,
                            data_len: len,
                            name_offset: be_u32_at(s, p + 4),
                            pos: next,
                            depth: depth,
                        }
                    }
                } else if next > s.len() {
                    PropStep::Malformed
                } else {
                    prop_walk(s, next, depth)
                }
            }
        } else if token == FDT_NOP {
            prop_walk(s, p, depth)
        } else if token == FDT_END {
            PropStep::Stop { pos: p, depth: depth }
        } else {
            PropStep::Malformed
        }
    }
}

/// The properties of one node, in the order in which the block holds them.
pub struct PropertyIter<'a> {
    reader: FdtNodeReader<'a>,
    depth: i32,
}

impl<'a> PropertyIter<'a> {
    /// The bytes the iteration walks over.
    pub closed spec fn bytes(&self) -> Seq<u8> {
        self.reader.bytes()
    }

    /// The index of the next token to read.
    pub closed spec fn pos(&self) -> int {
        self.reader.pos()
    }

    /// How deeply nested the next token is, counted from the node's own level.
    pub closed spec fn depth(&self) -> int {
        self.depth as int
    }

    /// An iteration that starts at the node token that `reader` stands before.
    pub fn new(reader: FdtNodeReader<'a>) -> (r: Self)
        ensures
            r.bytes() == reader.bytes(),
            r.pos() == reader.pos(),
            r.depth() == -1,
    {
        Self { reader, depth: -1 }
    }

    /// The next property of the node itself, skipping those of nested nodes;
    /// `None` once the node or the block ends.
    pub fn next(&mut self) -> (r: Option<Property<'a>>)
        requires
            prop_walk(old(self).bytes(), old(self).pos(), old(self).depth()) != PropStep::Malformed,
        ensures
            final(self).bytes() == old(self).bytes(),
            match prop_walk(old(self).bytes(), old(self).pos(), old(self).depth()) {
                PropStep::Yield { data_start, data_len, name_offset, pos, depth } => {
                    &&& r matches Some(prop) && prop.data@ == old(self).bytes().subrange(
                        data_start,
                        data_start + data_len,
                    ) && prop.name_offset@ == name_offset
                    &&& final(self).pos() == pos
                    &&& final(self).depth() == depth
                },
                PropStep::Stop { pos, depth } => {
                    &&& r is None
                    &&& final(self).pos() == pos
                    &&& final(self).depth() == depth
                },
                PropStep::Malformed => false,
            },
    {
        match self.try_next() {
            Ok(r) => r,
            Err(_) => {
                proof {
                    assert(false);
                }
                None
            },
        }
    }

    /// The next property as `next` gives it, and malformed bytes, where
    /// `next` would fail, reported as an error; after an error the position
    /// and depth are left unspecified.
    pub fn try_next(&mut self) -> (r: Result<Option<Property<'a>>, MalformedStructure>)
        ensures
            final(self).bytes() == old(self).bytes(),
            match prop_walk(old(self).bytes(), old(self).pos(), old(self).depth()) {
                PropStep::Yield { data_start, data_len, name_offset, pos, depth } => {
                    &&& r matches Ok(Some(prop)) && prop.data@ == old(self).bytes().subrange(
                        data_start,
                        data_start + data_len,
                    ) && prop.name_offset@ == name_offset
                    &&& final(self).pos() == pos
                    &&& final(self).depth() == depth
                },
                PropStep::Stop { pos, depth } => {
                    &&& r matches Ok(None)
                    &&& final(self).pos() == pos
                    &&& final(self).depth() == depth
                },
                PropStep::Malformed => r is Err,
            },
    {
        proof {
            self.reader.lemma_bytes_fit();
        }
        let ghost s = self.reader.bytes();
        let ghost goal = prop_walk(s, self.reader.pos(), self.depth as int);
        loop
            invariant
                self.reader.bytes() == s,
                s == old(self).bytes(),
                goal == prop_walk(old(self).bytes(), old(self).pos(), old(self).depth()),
                s.len() <= usize::MAX,
                0 <= self.reader.pos(),
                goal == prop_walk(s, self.reader.pos(), self.depth as int),
            decreases s.len() - self.reader.pos(),
        {
            let len_total = self.reader.len();
            if len_total < 4 || self.reader.position() > len_total - 4 {
                return Err(MalformedStructure);
            }
            let token = self.reader.read_u32();
            if token == FDT_BEGIN_NODE {
                if self.depth == i32::MAX {
                    return Err(MalformedStructure);
                }
                let p = self.reader.position();
                match self.reader.cstr_end() {
                    None => {},
                    Some(k) => {
                        proof {
                            lemma_first_index_of(s, 0, p as int);
                        }
                        match checked_next_multiple_of_4(k - p + 1) {
                            None => {
                                return Err(MalformedStructure);
                            },
                            Some(padded) => {
                                if padded > len_total - p {
                                    return Err(MalformedStructure);
                                }
                            },
                        }
                    },
                }
                let _ = self.reader.read_cstr();
                self.depth = self.depth + 1;
            } else if token == FDT_END_NODE {
                if self.depth == 0 {
                    return Ok(None);
                }
                if self.depth == i32::MIN {
                    return Err(MalformedStructure);
                }
                self.depth = self.depth - 1;
            } else if token == FDT_PROP {
                if len_total - self.reader.position() < 8 {
                    return Err(MalformedStructure);
                }
                let len = self.reader.read_u32();
                let name_offset = self.reader.read_u32();
                let p = self.reader.position();
                let padded = match checked_next_multiple_of_4(len as usize) {
                    None => {
                        return Err(MalformedStructure);
                    },
                    Some(padded) => padded,
                };
                proof {
                    lemma_round_up4(len as int);
                }
                if self.depth == 0 {
                    if len as usize > len_total - p || padded > usize::MAX - p {
                        return Err(MalformedStructure);
                    }
                    let data = self.reader.read_slice(len as usize);
                    let property = Property { data, name_offset: NameOffset(name_offset) };
                    return Ok(Some(property));
                }
                if padded > len_total - p {
                    return Err(MalformedStructure);
                }
                let _ = self.reader.read_slice(len as usize);
            } else if token == FDT_NOP {
            } else if token == FDT_END {
                return Ok(None);
            } else {
                return Err(MalformedStructure);
            }
        }
    }
}

impl<'a> Node<'a> {
    /// The properties of this node.
    pub fn properties(&self) -> (r: PropertyIter<'_>)
        ensures
            r.bytes() == self.rest(),
            r.pos() == 0,
            r.depth() == -1,
    {
        let reader = self.as_node_reader();
        PropertyIter::new(reader)
    }
}

/// Where the walk of `find` stops on a child, the block holds, at that index,
/// an `FDT_BEGIN_NODE` token followed by a nul-terminated UTF-8 name whose
/// unit name is the target.
pub proof fn lemma_find_walk_found(s: Seq<u8>, pos: int, depth: int, target: Seq<u8>)
    ensures
        find_walk(s, pos, depth, target) matches FindOutcome::Found(p) ==> {
            &&& pos <= p
            &&& pos % 4 == 0 ==> p % 4 == 0
            &&& p + 4 <= s.len()
            &&& be_u32_at(s, p) == FDT_BEGIN_NODE
            &&& first_index_of(s, 0, p + 4) matches Some(k) && valid_utf8(s.subrange(p + 4, k))
                && unit_name(s.subrange(p + 4, k)) == target
        },
    decreases s.len() - pos,
{
    if 0 <= pos && pos + 4 <= s.len() {
        let token = be_u32_at(s, pos);
        let p = pos + 4;
        if token == FDT_BEGIN_NODE {
            if let Some(k) = first_index_of(s, 0, p) {
                lemma_first_index_of(s, 0, p);
                let next = p + round_up4(k - p + 1);
                lemma_round_up4(k - p + 1);
                if pos % 4 == 0 {
                    lemma_add_aligned4(pos, 4);
                    lemma_add_aligned4(p, round_up4(k - p + 1));
                }
                if next <= s.len() {
                    lemma_find_walk_found(s, next, depth + 1, target);
                }
            }
        } else if token == FDT_PROP {
            if p + 8 <= s.len() {
                let next = p + 8 + round_up4(be_u32_at(s, p) as int);
                lemma_round_up4(be_u32_at(s, p) as int);
                if pos % 4 == 0 {
                    lemma_add_aligned4(pos, 12);
                    lemma_add_aligned4(p + 8, round_up4(be_u32_at(s, p) as int));
                }
                if next <= s.len() {
                    lemma_find_walk_found(s, next, depth, target);
                }
            }
        } else if token == FDT_END_NODE {
            if pos % 4 == 0 {
                lemma_add_aligned4(pos, 4);
            }
            if depth != 0 {
                lemma_find_walk_found(s, p, depth - 1, target);
            }
        } else if token == FDT_NOP {
            if pos % 4 == 0 {
                lemma_add_aligned4(pos, 4);
            }
            lemma_find_walk_found(s, p, depth, target);
        }
    }
}

/// A child that `find` returns is named by the target: in the node's bytes,
/// at the child's index, stands an `FDT_BEGIN_NODE` token followed by a
/// nul-terminated UTF-8 name whose unit name (the part before any `@`) equals
/// the target with its surrounding `/` removed.
pub proof fn law_found_child_is_named_target(node: Node, target: Seq<u8>, p: int)
    requires
        find_walk(node.rest(), 0, 0, trim_slashes(target)) == FindOutcome::Found(p),
    ensures
        0 <= p,
        p % 4 == 0,
        p + 4 <= node.rest().len(),
        be_u32_at(node.rest(), p) == FDT_BEGIN_NODE,
        first_index_of(node.rest(), 0, p + 4) matches Some(k) && unit_name(
            node.rest().subrange(p + 4, k),
        ) == trim_slashes(target),
{
    lemma_find_walk_found(node.rest(), 0, 0, trim_slashes(target));
}

/// Every byte of `t` in `[from, to)` is a `/`.
pub open spec fn all_slashes(t: Seq<u8>, from: int, to: int) -> bool {
    forall|j: int| from <= j < to ==> t[j] == 0x2fu8
}

proof fn lemma_skip_leading_slashes(t: Seq<u8>, i: int)
    requires
        0 <= i <= t.len(),
    ensures
        i <= skip_leading_slashes(t, i) <= t.len(),
        skip_leading_slashes(t, i) < t.len() ==> t[skip_leading_slashes(t, i)] != 0x2fu8,
        all_slashes(t, i, skip_leading_slashes(t, i)),
    decreases t.len() - i,
{
    if i < t.len() && t[i] == 0x2fu8 {
        lemma_skip_leading_slashes(t, i + 1);
    }
}

proof fn lemma_skip_trailing_slashes(t: Seq<u8>, lo: int, j: int)
    requires
        0 <= lo <= j <= t.len(),
    ensures
        lo <= skip_trailing_slashes(t, lo, j) <= j,
        skip_trailing_slashes(t, lo, j) > lo ==> t[skip_trailing_slashes(t, lo, j) - 1] != 0x2fu8,
        all_slashes(t, skip_trailing_slashes(t, lo, j), j),
    decreases j - lo,
{
    if lo < j && t[j - 1] == 0x2fu8 {
        lemma_skip_trailing_slashes(t, lo, j - 1);
    }
}

/// `t.subrange(lo, hi)` is what remains of `t` once its outer `/` are removed
/// when only `/` stand outside it and no `/` stands at its ends.
proof fn lemma_trim_slashes_bounds(t: Seq<u8>, lo: int, hi: int)
    requires
        0 <= lo <= hi <= t.len(),
        all_slashes(t, 0, lo),
        all_slashes(t, hi, t.len() as int),
        lo < hi ==> t[lo] != 0x2fu8 && t[hi - 1] != 0x2fu8,
    ensures
        trim_slashes(t) == t.subrange(lo, hi),
{
    lemma_skip_leading_slashes(t, 0);
    let r0 = skip_leading_slashes(t, 0);
    if lo < hi {
        assert(r0 == lo);
        lemma_skip_trailing_slashes(t, lo, t.len() as int);
        let r1 = skip_trailing_slashes(t, lo, t.len() as int);
        if r1 < hi {
            assert(t[hi - 1] == 0x2fu8);
        }
        if r1 > hi {
            assert(t[r1 - 1] == 0x2fu8);
        }
        assert(r1 == hi);
    } else {
        if r0 < t.len() {
            if r0 < lo {
                assert(t[r0] == 0x2fu8);
            } else {
                assert(t[r0] == 0x2fu8);
            }
        }
        assert(r0 == t.len());
        assert(skip_trailing_slashes(t, r0, t.len() as int) == t.len());
        assert(t.subrange(r0, r0) =~= t.subrange(lo, hi));
    }
}

/// Removing the outer `/` a second time changes nothing.
pub proof fn law_trim_slashes_idempotent(t: Seq<u8>)
    ensures
        trim_slashes(trim_slashes(t)) == trim_slashes(t),
{
    lemma_skip_leading_slashes(t, 0);
    let lo = skip_leading_slashes(t, 0);
    lemma_skip_trailing_slashes(t, lo, t.len() as int);
    let u = trim_slashes(t);
    lemma_trim_slashes_bounds(u, 0, u.len() as int);
    assert(u.subrange(0, u.len() as int) =~= u);
}

/// `/` added before or after a target do not change the child it names.
pub proof fn law_outer_slashes_ignored(before: Seq<u8>, t: Seq<u8>, after: Seq<u8>)
    requires
        all_slashes(before, 0, before.len() as int),
        all_slashes(after, 0, after.len() as int),
    ensures
        trim_slashes(before + t + after) == trim_slashes(t),
{
    lemma_skip_leading_slashes(t, 0);
    let lo = skip_leading_slashes(t, 0);
    lemma_skip_trailing_slashes(t, lo, t.len() as int);
    let hi = skip_trailing_slashes(t, lo, t.len() as int);
    let w = before + t + after;
    let n = before.len() as int;
    if lo < hi {
        lemma_trim_slashes_bounds(w, n + lo, n + hi);
        assert(w.subrange(n + lo, n + hi) =~= t.subrange(lo, hi));
    } else {
        assert(all_slashes(w, 0, w.len() as int)) by {
            assert forall|j: int| 0 <= j < w.len() implies w[j] == 0x2fu8 by {
                if n <= j < n + t.len() {
                    assert(w[j] == t[j - n]);
                    if j - n >= lo {
                        assert(t[j - n] == 0x2fu8);
                    }
                }
            }
        }
        lemma_trim_slashes_bounds(w, 0, 0);
        assert(w.subrange(0, 0) =~= t.subrange(lo, hi));
    }
}

/// Where one step of a property iteration ends, and what it yields, lie in
/// the node's bytes. A yielded property is an `FDT_PROP` token at or after
/// the starting index, its length, its name offset, then its data; the step
/// ends past the data's padding, back at the node's own depth. A step that
/// stops without a property has read at least one token and stays within
/// the bytes. Either way a 4-aligned position stays 4-aligned.
pub open spec fn step_lies_in_node(s: Seq<u8>, pos: int, step: PropStep) -> bool {
    match step {
        PropStep::Yield { data_start, data_len, name_offset, pos: end, depth: end_depth } => {
            &&& pos + 12 <= data_start
            &&& data_start + data_len <= s.len()
            &&& be_u32_at(s, data_start - 12) == FDT_PROP
            &&& be_u32_at(s, data_start - 8) == data_len
            &&& be_u32_at(s, data_start - 4) == name_offset
            &&& end == data_start + round_up4(data_len)
            &&& end_depth == 0
            &&& pos % 4 == 0 ==> data_start % 4 == 0 && end % 4 == 0
        },
        PropStep::Stop { pos: end, depth: end_depth } => {
            &&& pos + 4 <= end <= s.len()
            &&& pos % 4 == 0 ==> end % 4 == 0
        },
        PropStep::Malformed => true,
    }
}

/// Every step of a property iteration lies in the node's bytes, as
/// `step_lies_in_node` says.
pub proof fn law_property_step_lies_in_node(s: Seq<u8>, pos: int, depth: int)
    ensures
        step_lies_in_node(s, pos, prop_walk(s, pos, depth)),
    decreases s.len() - pos,
{
    if 0 <= pos && pos + 4 <= s.len() {
        let token = be_u32_at(s, pos);
        let p = pos + 4;
        if token == FDT_BEGIN_NODE {
            if depth + 1 <= i32::MAX {
                match first_index_of(s, 0, p) {
                    None => {
                        if pos % 4 == 0 {
                            lemma_add_aligned4(pos, 4);
                        }
                        law_property_step_lies_in_node(s, p, depth + 1);
                    },
                    Some(k) => {
                        lemma_first_index_of(s, 0, p);
                        lemma_round_up4(k - p + 1);
                        let next = p + round_up4(k - p + 1);
                        if pos % 4 == 0 {
                            lemma_add_aligned4(pos, 4);
                            lemma_add_aligned4(p, round_up4(k - p + 1));
                        }
                        if next <= s.len() {
                            law_property_step_lies_in_node(s, next, depth + 1);
                        }
                    },
                }
            }
        } else if token == FDT_END_NODE {
            if pos % 4 == 0 {
                lemma_add_aligned4(pos, 4);
            }
            if depth != 0 && depth - 1 >= i32::MIN {
                law_property_step_lies_in_node(s, p, depth - 1);
            }
        } else if token == FDT_PROP {
            if p + 8 <= s.len() {
                let len = be_u32_at(s, p) as int;
                lemma_round_up4(len);
                let next = p + 8 + round_up4(len);
                if pos % 4 == 0 {
                    lemma_add_aligned4(pos, 12);
                    lemma_add_aligned4(p + 8, round_up4(len));
                }
                if depth != 0 && next <= s.len() {
                    law_property_step_lies_in_node(s, next, depth);
                }
            }
        } else if token == FDT_NOP {
            if pos % 4 == 0 {
                lemma_add_aligned4(pos, 4);
            }
            law_property_step_lies_in_node(s, p, depth);
        } else if token == FDT_END {
            if pos % 4 == 0 {
                lemma_add_aligned4(pos, 4);
            }
        }
    }
}

/// Searching the bytes from index `p` on is searching the whole bytes from `p` on.
proof fn lemma_first_index_of_in_suffix(s: Seq<u8>, byte: u8, p: int, i: int)
    requires
        0 <= p <= s.len(),
        0 <= i,
    ensures
        first_index_of(s.subrange(p, s.len() as int), byte, i) == (match first_index_of(
            s,
            byte,
            p + i,
        ) {
            Some(k) => Some(k - p),
            None => None,
        }),
    decreases s.len() - p - i,
{
    if p + i < s.len() && s[p + i] != byte {
        lemma_first_index_of_in_suffix(s, byte, p, i + 1);
    }
}

/// A node that `find` returns is the named child itself: its first token
/// is `FDT_BEGIN_NODE`, and the unit name that follows is the target with its
/// surrounding `/` removed.
pub proof fn law_find_gives_named_child(node: Node, child: Node, target: Seq<u8>)
    requires
        0 <= node.offset_view() <= node.blob_view().len(),
        child.blob_view() == node.blob_view(),
        find_walk(node.rest(), 0, 0, trim_slashes(target)) == FindOutcome::Found(
            child.offset_view() - node.offset_view(),
        ),
    ensures
        child.rest().len() >= 4,
        be_u32_at(child.rest(), 0) == FDT_BEGIN_NODE,
        first_index_of(child.rest(), 0, 4) matches Some(k) && unit_name(
            child.rest().subrange(4, k),
        ) == trim_slashes(target),
{
    let b = node.rest();
    let p = child.offset_view() - node.offset_view();
    lemma_find_walk_found(b, 0, 0, trim_slashes(target));
    let r = child.rest();
    assert(r =~= b.subrange(p, b.len() as int));
    assert(be_u32_at(r, 0) == be_u32_at(b, p));
    lemma_first_index_of_in_suffix(b, 0, p, 4);
    lemma_first_index_of(b, 0, p + 4);
    if let Some(k) = first_index_of(b, 0, p + 4) {
        assert(r.subrange(4, k - p) =~= b.subrange(p + 4, k));
    }
}

/// The unit name is the part of a node name before its first `@`: a name
/// without `@` is its own unit name, and a name `a@b`, with no `@` in `a`,
/// has the unit name `a`, whatever `b` holds.
pub proof fn law_unit_name_is_before_first_at(a: Seq<u8>, b: Seq<u8>)
    requires
        forall|i: int| 0 <= i < a.len() ==> a[i] != 0x40u8,
    ensures
        unit_name(a) == a,
        unit_name(a + seq![0x40u8] + b) == a,
{
    lemma_first_index_of(a, 0x40u8, 0);
    let n = a + seq![0x40u8] + b;
    lemma_first_index_of(n, 0x40u8, 0);
    assert(n[a.len() as int] == 0x40u8);
    assert forall|j: int| 0 <= j < a.len() implies n[j] != 0x40u8 by {
        assert(n[j] == a[j]);
    }
    assert(n.subrange(0, a.len() as int) =~= a);
}

/// The search passes over an `FDT_NOP` token at any depth: from such a
/// token it goes on from the next token, at the same depth.
pub proof fn law_nop_skipped_by_find(s: Seq<u8>, pos: int, depth: int, target: Seq<u8>)
    requires
        0 <= pos,
        pos + 4 <= s.len(),
        be_u32_at(s, pos) == FDT_NOP,
    ensures
        find_walk(s, pos, depth, target) == find_walk(s, pos + 4, depth, target),
{
}

/// The iteration over properties passes over an `FDT_NOP` token at any
/// depth: from such a token it goes on from the next token, at the same depth.
pub proof fn law_nop_skipped_by_iteration(s: Seq<u8>, pos: int, depth: int)
    requires
        0 <= pos,
        pos + 4 <= s.len(),
        be_u32_at(s, pos) == FDT_NOP,
    ensures
        prop_walk(s, pos, depth) == prop_walk(s, pos + 4, depth),
{
}

} // verus!
