//! The page format: identifiers, sizes, the on-disk header, and [`Page`].
//!
//! A page is `page_size` bytes: a 32-byte little-endian header followed by the
//! payload. The header holds, at these offsets: magic `b"PGDB"` (0, 4 bytes),
//! format version (4, 2), flags (6, 2), page id (8, 8), lsn (16, 8), the
//! CRC32C (24, 4) and a reserved word (28, 4). The checksum covers every byte
//! of the page except its own four.
use crate::checksum::{
    crc32c_spec, lemma_crc32c_detects_single_byte_change, lemma_crc32c_streaming, Crc32c,
    CRC_INIT,
};
use crate::error::{PageError, PageResult};
use crate::le::{
    byte_bound, field, lemma_byte_bounds, lemma_field_injective, lemma_put_field,
    lemma_put_field_other, put_field, read_u16, read_u32, read_u64, write_u16, write_u32,
    write_u64,
};
use core::cmp::Ordering;
use vstd::arithmetic::power2::{is_pow2, is_pow2_equiv, lemma_pow2, pow2};
use vstd::prelude::*;
use vstd::std_specs::cmp::PartialOrdSpecImpl;

verus! {

/// The smallest accepted page size, in bytes.
pub const MIN_PAGE_SIZE: usize = 4096;

/// The largest accepted page size, in bytes (1 MiB).
pub const MAX_PAGE_SIZE: usize = 1048576;

/// The size of the page header, in bytes.
pub const PAGE_HEADER_SIZE: usize = 32;

/// The header magic: the bytes `b"PGDB"` read little-endian.
pub const MAGIC: u32 = 0x4244_4750;

/// The header format version this build writes and reads.
pub const FORMAT_VERSION: u16 = 1;

const OFF_MAGIC: usize = 0;

const OFF_VERSION: usize = 4;

const OFF_PAGE_ID: usize = 8;

const OFF_LSN: usize = 16;

const OFF_CRC: usize = 24;

/// `n` is a power of two.
pub open spec fn is_power_of_two(n: nat) -> bool
    decreases n,
{
    if n == 0 {
        false
    } else if n == 1 {
        true
    } else {
        n % 2 == 0 && is_power_of_two(n / 2)
    }
}

/// A page size is a power of two in `MIN_PAGE_SIZE..=MAX_PAGE_SIZE`.
pub open spec fn valid_page_size(n: nat) -> bool {
    MIN_PAGE_SIZE <= n <= MAX_PAGE_SIZE && is_power_of_two(n)
}

/// The magic field of a page image.
pub open spec fn magic_of(b: Seq<u8>) -> nat {
    field(b, 0, 4)
}

/// The version field of a page image.
pub open spec fn version_of(b: Seq<u8>) -> nat {
    field(b, 4, 2)
}

/// The page-id field of a page image.
pub open spec fn page_id_of(b: Seq<u8>) -> nat {
    field(b, 8, 8)
}

/// The lsn field of a page image.
pub open spec fn lsn_of(b: Seq<u8>) -> nat {
    field(b, 16, 8)
}

/// The stored checksum field of a page image.
pub open spec fn stored_crc_of(b: Seq<u8>) -> nat {
    field(b, 24, 4)
}

/// The payload of a page image: every byte after the header.
pub open spec fn payload_of(b: Seq<u8>) -> Seq<u8> {
    b.subrange(32, b.len() as int)
}

/// The bytes the checksum covers: the whole image without its checksum field.
pub open spec fn checksum_region(b: Seq<u8>) -> Seq<u8> {
    b.subrange(0, 24) + b.subrange(28, b.len() as int)
}

/// The checksum a page image should carry.
pub open spec fn checksum_of(b: Seq<u8>) -> u32 {
    crc32c_spec(checksum_region(b))
}

/// The image carries this build's magic and version.
pub open spec fn header_ok(b: Seq<u8>) -> bool {
    magic_of(b) == MAGIC as nat && version_of(b) == FORMAT_VERSION as nat
}

/// What every [`Page`] is: a valid size with this build's magic and version.
pub open spec fn page_image(b: Seq<u8>) -> bool {
    valid_page_size(b.len()) && header_ok(b)
}

/// `n` zero bytes.
pub open spec fn zeros(n: nat) -> Seq<u8> {
    Seq::new(n, |i: int| 0u8)
}

/// A fresh page: zero bytes under this build's magic and version.
pub open spec fn blank_page(n: nat) -> Seq<u8> {
    put_field(put_field(zeros(n), 0, 4, MAGIC as nat), 4, 2, FORMAT_VERSION as nat)
}

/// The image with its checksum field set to the checksum of the rest.
pub open spec fn with_checksum(b: Seq<u8>) -> Seq<u8> {
    put_field(b, 24, 4, checksum_of(b) as nat)
}

/// The image stamped for slot `id`: the id written, then the checksum.
pub open spec fn stamped(b: Seq<u8>, id: nat) -> Seq<u8> {
    with_checksum(put_field(b, 8, 8, id))
}

/// The outcome of validating a page image, in the documented order: magic,
/// version, checksum, then (when a slot is expected) the stamped id.
pub open spec fn page_check(b: Seq<u8>, expected: Option<PageId>) -> PageResult<()> {
    if magic_of(b) != MAGIC as nat {
        Err(PageError::BadMagic { found: magic_of(b) as u32, expected: MAGIC })
    } else if version_of(b) != FORMAT_VERSION as nat {
        Err(PageError::UnsupportedVersion { found: version_of(b) as u16, supported: FORMAT_VERSION })
    } else if stored_crc_of(b) != checksum_of(b) as nat {
        Err(
            PageError::ChecksumMismatch {
                page_id: page_id_of(b) as u64,
                stored: stored_crc_of(b) as u32,
                computed: checksum_of(b),
            },
        )
    } else if expected is Some && page_id_of(b) != expected->0@ as nat {
        Err(PageError::MisdirectedPage { requested: expected->0@, found: page_id_of(b) as u64 })
    } else {
        Ok(())
    }
}

/// The id of a page within a file: its slot index. Page `n` lives at byte
/// offset `n * page_size`.
#[derive(Debug, Clone, Copy, PartialEq, Eq, Ord, Hash, Structural)]
pub struct PageId(u64);

impl View for PageId {
    type V = u64;

    closed spec fn view(&self) -> u64 {
        self.0
    }
}

/// The id of slot `n`.
pub closed spec fn page_id(n: u64) -> PageId {
    PageId(n)
}

/// The id of slot `n` has index `n`.
pub broadcast proof fn lemma_page_id_view(n: u64)
    ensures
        #[trigger] page_id(n)@ == n,
{
}

/// Every id is the id of its own slot index.
pub proof fn lemma_page_id_of_view(x: PageId)
    ensures
        page_id(x@) == x,
{
}

impl PageId {
    /// Wrap a raw slot index.
    pub fn new(id: u64) -> (p: PageId)
        ensures
            p@ == id,
            p == page_id(id),
    {
        PageId(id)
    }

    /// The raw slot index.
    pub fn get(self) -> (id: u64)
        ensures
            id == self@,
    {
        self.0
    }

    /// The byte offset of this page in a file of the given page size.
    pub fn byte_offset(self, page_size: usize) -> (off: u64)
        requires
            self@ * page_size <= u64::MAX,
        ensures
            off == self@ * page_size,
    {
        self.0 * (page_size as u64)
    }
}

/// Two ids with the same slot index are the same id.
pub proof fn lemma_page_id_injective(a: PageId, b: PageId)
    ensures
        a@ == b@ <==> a == b,
{
}

impl PartialOrd for PageId {
    /// Ids are ordered by their slot index.
    fn partial_cmp(&self, other: &Self) -> (r: Option<Ordering>)
        ensures
            r == Some(Ordering::Less) <==> self@ < other@,
            r == Some(Ordering::Equal) <==> self@ == other@,
            r == Some(Ordering::Greater) <==> self@ > other@,
    {
        if self.0 < other.0 {
            Some(Ordering::Less)
        } else if self.0 == other.0 {
            Some(Ordering::Equal)
        } else {
            Some(Ordering::Greater)
        }
    }
}

impl PartialOrdSpecImpl for PageId {
    open spec fn obeys_partial_cmp_spec() -> bool {
        true
    }

    open spec fn partial_cmp_spec(&self, other: &Self) -> Option<Ordering> {
        if self@ < other@ {
            Some(Ordering::Less)
        } else if self@ == other@ {
            Some(Ordering::Equal)
        } else {
            Some(Ordering::Greater)
        }
    }
}

/// Page ids are ordered by their slot indices: `a < b` exactly when `a`'s
/// index is smaller, ids with equal indices compare equal, and the order
/// read from either side agrees.
pub proof fn lemma_page_id_order(a: PageId, b: PageId)
    ensures
        vstd::std_specs::cmp::PartialOrdSpec::partial_cmp_spec(&a, &b) == Some(Ordering::Less) <==> a@ < b@,
        vstd::std_specs::cmp::PartialOrdSpec::partial_cmp_spec(&a, &b) == Some(Ordering::Equal) <==> a@ == b@,
        vstd::std_specs::cmp::PartialOrdSpec::partial_cmp_spec(&a, &b) == Some(Ordering::Greater) <==> a@ > b@,
        vstd::std_specs::cmp::PartialOrdSpec::partial_cmp_spec(&a, &b) == Some(Ordering::Less) <==> vstd::std_specs::cmp::PartialOrdSpec::partial_cmp_spec(&b, &a) == Some(
            Ordering::Greater,
        ),
{
}

/// A write-ahead-log sequence number stamped into a page header. page-db
/// carries it and does not interpret it.
#[derive(Debug, Clone, Copy, PartialEq, Eq, Ord, Hash, Structural)]
pub struct Lsn(u64);

impl View for Lsn {
    type V = u64;

    closed spec fn view(&self) -> u64 {
        self.0
    }
}

impl Lsn {
    /// The sentinel for "no log record": a page that has not been logged.
    pub fn zero() -> (l: Lsn)
        ensures
            l@ == 0,
    {
        Lsn(0)
    }

    /// Wrap a raw sequence number.
    pub fn new(lsn: u64) -> (l: Lsn)
        ensures
            l@ == lsn,
    {
        Lsn(lsn)
    }

    /// The raw sequence number.
    pub fn get(self) -> (lsn: u64)
        ensures
            lsn == self@,
    {
        self.0
    }
}

/// Two lsns with the same sequence number are the same lsn.
pub proof fn lemma_lsn_injective(a: Lsn, b: Lsn)
    ensures
        a@ == b@ <==> a == b,
{
}

impl PartialOrd for Lsn {
    /// Lsns are ordered by their sequence number.
    fn partial_cmp(&self, other: &Self) -> (r: Option<Ordering>)
        ensures
            r == Some(Ordering::Less) <==> self@ < other@,
            r == Some(Ordering::Equal) <==> self@ == other@,
            r == Some(Ordering::Greater) <==> self@ > other@,
    {
        if self.0 < other.0 {
            Some(Ordering::Less)
        } else if self.0 == other.0 {
            Some(Ordering::Equal)
        } else {
            Some(Ordering::Greater)
        }
    }
}

impl PartialOrdSpecImpl for Lsn {
    open spec fn obeys_partial_cmp_spec() -> bool {
        true
    }

    open spec fn partial_cmp_spec(&self, other: &Self) -> Option<Ordering> {
        if self@ < other@ {
            Some(Ordering::Less)
        } else if self@ == other@ {
            Some(Ordering::Equal)
        } else {
            Some(Ordering::Greater)
        }
    }
}

/// Lsns are ordered by their sequence numbers: `a < b` exactly when `a`'s
/// number is smaller, lsns with equal numbers compare equal, and the order
/// read from either side agrees.
pub proof fn lemma_lsn_order(a: Lsn, b: Lsn)
    ensures
        vstd::std_specs::cmp::PartialOrdSpec::partial_cmp_spec(&a, &b) == Some(Ordering::Less) <==> a@ < b@,
        vstd::std_specs::cmp::PartialOrdSpec::partial_cmp_spec(&a, &b) == Some(Ordering::Equal) <==> a@ == b@,
        vstd::std_specs::cmp::PartialOrdSpec::partial_cmp_spec(&a, &b) == Some(Ordering::Greater) <==> a@ > b@,
        vstd::std_specs::cmp::PartialOrdSpec::partial_cmp_spec(&a, &b) == Some(Ordering::Less) <==> vstd::std_specs::cmp::PartialOrdSpec::partial_cmp_spec(&b, &a) == Some(
            Ordering::Greater,
        ),
{
}

/// A validated page size: a power of two in `MIN_PAGE_SIZE..=MAX_PAGE_SIZE`.
#[derive(Debug, Clone, Copy, PartialEq, Eq, PartialOrd, Ord, Hash, Structural)]
pub struct PageSize(usize);

impl View for PageSize {
    type V = usize;

    closed spec fn view(&self) -> usize {
        self.0
    }
}

proof fn lemma_power_of_two_is_pow2(n: nat)
    ensures
        is_power_of_two(n) == is_pow2(n as int),
    decreases n,
{
    reveal(is_pow2);
    if n > 1 {
        lemma_power_of_two_is_pow2(n / 2);
    }
}

/// A page-size candidate passes the power-of-two test exactly when it is
/// `2^k` for some `k`.
pub proof fn lemma_power_of_two_exact(n: nat)
    ensures
        is_power_of_two(n) <==> exists|k: nat| #[trigger] pow2(k) == n,
{
    lemma_power_of_two_is_pow2(n);
    is_pow2_equiv(n as int);
    if is_power_of_two(n) {
        let k = choose|k: nat| vstd::arithmetic::power::pow(2, k) == n as int;
        lemma_pow2(k);
        assert(pow2(k) == n);
    }
    if exists|k: nat| #[trigger] pow2(k) == n {
        let k = choose|k: nat| #[trigger] pow2(k) == n;
        lemma_pow2(k);
        assert(vstd::arithmetic::power::pow(2, k) == n as int);
    }
}

/// The valid page sizes are exactly the powers of two from 4 KiB to 1 MiB.
pub proof fn lemma_valid_page_size_exact(n: nat)
    ensures
        valid_page_size(n) <==> MIN_PAGE_SIZE <= n <= MAX_PAGE_SIZE && exists|k: nat|
            #[trigger] pow2(k) == n,
{
    lemma_power_of_two_exact(n);
}

/// Whether `n` is a power of two.
fn power_of_two(n: usize) -> (r: bool)
    ensures
        r == is_power_of_two(n as nat),
        r <==> exists|k: nat| #[trigger] pow2(k) == n,
{
    proof {
        lemma_power_of_two_exact(n as nat);
    }
    if n == 0 {
        return false;
    }
    let mut m = n;
    while m > 1 && m % 2 == 0
        invariant
            m >= 1,
            is_power_of_two(m as nat) == is_power_of_two(n as nat),
        decreases m,
    {
        m = m / 2;
    }
    m == 1
}

impl PageSize {
    #[verifier::type_invariant]
    pub closed spec fn inv(self) -> bool {
        valid_page_size(self.0 as nat)
    }

    /// Validate and wrap a page size in bytes.
    pub fn new(size: usize) -> (r: PageResult<PageSize>)
        ensures
            r is Ok <==> valid_page_size(size as nat),
            r is Ok <==> MIN_PAGE_SIZE <= size <= MAX_PAGE_SIZE && exists|k: nat|
                #[trigger] pow2(k) == size,
            r is Ok ==> r->Ok_0@ == size,
            r is Err ==> r->Err_0 == (PageError::InvalidPageSize { size }),
    {
        proof {
            lemma_valid_page_size_exact(size as nat);
        }
        if size < MIN_PAGE_SIZE || size > MAX_PAGE_SIZE || !power_of_two(size) {
            return Err(PageError::InvalidPageSize { size });
        }
        Ok(PageSize(size))
    }

    /// The page size in bytes.
    pub fn get(self) -> (n: usize)
        ensures
            n == self@,
            valid_page_size(n as nat),
    {
        proof {
            use_type_invariant(&self);
        }
        self.0
    }

    /// The usable payload length of a page of this size.
    pub fn payload_len(self) -> (n: usize)
        ensures
            n == self@ - PAGE_HEADER_SIZE,
    {
        proof {
            use_type_invariant(&self);
        }
        self.0 - PAGE_HEADER_SIZE
    }
}

impl Default for PageSize {
    /// The default page size (4 KiB), matching the common OS and device page
    /// size.
    fn default() -> (ps: PageSize)
        ensures
            ps@ == 4096,
    {
        proof {
            reveal_with_fuel(is_power_of_two, 14);
        }
        PageSize(4096)
    }
}


/// The bytes of a `Vec<u8>` from `start` on, as a mutable slice. The slice
/// cannot change length, so the vector keeps its length and its bytes before
/// `start`.
#[verifier::external_body]
fn vec_tail_mut(v: &mut Vec<u8>, start: usize) -> (s: &mut [u8])
    requires
        start <= old(v)@.len(),
    ensures
        s@ == old(v)@.subrange(start as int, old(v)@.len() as int),
        final(s)@.len() == s@.len(),
        final(v)@ == old(v)@.subrange(0, start as int) + final(s)@,
    no_unwind
{
    &mut v[start..]
}

/// Whatever follows the header, an image keeps its header's validity.
proof fn lemma_keep_header(b: Seq<u8>, c: Seq<u8>)
    requires
        page_image(b),
        c.len() == b.len(),
        c.subrange(0, 6) == b.subrange(0, 6),
    ensures
        page_image(c),
{
    assert(c.subrange(0, 4) =~= c.subrange(0, 6).subrange(0, 4));
    assert(b.subrange(0, 4) =~= b.subrange(0, 6).subrange(0, 4));
    assert(c.subrange(4, 6) =~= c.subrange(0, 6).subrange(4, 6));
    assert(b.subrange(4, 6) =~= b.subrange(0, 6).subrange(4, 6));
}

/// The header fields of an image stay put when a field at or past offset 6
/// is written.
proof fn lemma_header_kept(b: Seq<u8>, off: int, n: nat, v: nat)
    requires
        page_image(b),
        6 <= off,
        off + n <= b.len(),
        v < byte_bound(n),
    ensures
        page_image(put_field(b, off, n, v)),
        magic_of(put_field(b, off, n, v)) == magic_of(b),
        version_of(put_field(b, off, n, v)) == version_of(b),
{
    lemma_put_field_other(b, off, n, v, 0, 4);
    lemma_put_field_other(b, off, n, v, 4, 2);
    lemma_put_field(b, off, n, v);
}

/// Writing the checksum field leaves the checksummed region unchanged.
proof fn lemma_region_kept(b: Seq<u8>, v: nat)
    requires
        b.len() >= 32,
        v < byte_bound(4),
    ensures
        checksum_region(put_field(b, 24, 4, v)) == checksum_region(b),
        checksum_of(put_field(b, 24, 4, v)) == checksum_of(b),
        stored_crc_of(put_field(b, 24, 4, v)) == v,
{
    let t = put_field(b, 24, 4, v);
    lemma_put_field(b, 24, 4, v);
    assert(t.subrange(0, 24) =~= b.subrange(0, 24));
    assert(t.subrange(28, t.len() as int) =~= b.subrange(28, b.len() as int));
    assert(checksum_region(t) =~= checksum_region(b));
}

/// A header-valid image with its checksum filled in verifies (with no slot
/// expected).
pub proof fn lemma_with_checksum_verifies(b: Seq<u8>)
    requires
        page_image(b),
    ensures
        page_check(with_checksum(b), None) == Ok::<(), PageError>(()),
        page_image(with_checksum(b)),
        with_checksum(b).len() == b.len(),
        lsn_of(with_checksum(b)) == lsn_of(b),
        page_id_of(with_checksum(b)) == page_id_of(b),
        payload_of(with_checksum(b)) == payload_of(b),
{
    let c = checksum_of(b) as nat;
    lemma_byte_bounds();
    lemma_region_kept(b, c);
    lemma_header_kept(b, 24, 4, c);
    lemma_put_field_other(b, 24, 4, c, 8, 8);
    lemma_put_field_other(b, 24, 4, c, 16, 8);
    lemma_put_field(b, 24, 4, c);
    assert(payload_of(with_checksum(b)) =~= payload_of(b));
}

/// A page stamped for slot `id` verifies against `id`, and keeps its lsn and
/// payload.
pub proof fn lemma_stamp_then_verify(b: Seq<u8>, id: PageId)
    requires
        page_image(b),
    ensures
        page_check(stamped(b, id@ as nat), Some(id)) == Ok::<(), PageError>(()),
        page_image(stamped(b, id@ as nat)),
        stamped(b, id@ as nat).len() == b.len(),
        page_id_of(stamped(b, id@ as nat)) == id@,
        lsn_of(stamped(b, id@ as nat)) == lsn_of(b),
        payload_of(stamped(b, id@ as nat)) == payload_of(b),
{
    lemma_byte_bounds();
    let b1 = put_field(b, 8, 8, id@ as nat);
    lemma_header_kept(b, 8, 8, id@ as nat);
    lemma_put_field(b, 8, 8, id@ as nat);
    lemma_put_field_other(b, 8, 8, id@ as nat, 16, 8);
    assert(payload_of(b1) =~= payload_of(b));
    lemma_with_checksum_verifies(b1);
}

/// Setting the lsn of a page is read back by `lsn`, and leaves its stamped
/// id, its payload and its size as they were.
pub proof fn lemma_set_lsn_then_lsn(b: Seq<u8>, lsn: Lsn)
    requires
        page_image(b),
    ensures
        lsn_of(put_field(b, 16, 8, lsn@ as nat)) == lsn@,
        page_id_of(put_field(b, 16, 8, lsn@ as nat)) == page_id_of(b),
        payload_of(put_field(b, 16, 8, lsn@ as nat)) == payload_of(b),
        put_field(b, 16, 8, lsn@ as nat).len() == b.len(),
{
    lemma_byte_bounds();
    let c = put_field(b, 16, 8, lsn@ as nat);
    lemma_put_field(b, 16, 8, lsn@ as nat);
    lemma_put_field_other(b, 16, 8, lsn@ as nat, 8, 8);
    assert(payload_of(c) =~= payload_of(b));
}

/// Any single-byte change to a page that verifies makes it fail to verify:
/// corruption of one byte is always detected.
pub proof fn lemma_single_byte_corruption_detected(
    b: Seq<u8>,
    expected: Option<PageId>,
    j: int,
    x: u8,
)
    requires
        b.len() >= 32,
        page_check(b, expected) is Ok,
        0 <= j < b.len(),
        x != b[j],
    ensures
        page_check(b.update(j, x), expected) is Err,
{
    let c = b.update(j, x);
    if j < 4 {
        assert(c.subrange(0, 4)[j] != b.subrange(0, 4)[j]);
        if field(c, 0, 4) == field(b, 0, 4) {
            lemma_field_injective(c, b, 0, 4);
        }
    } else if j < 6 {
        assert(c.subrange(0, 4) =~= b.subrange(0, 4));
        assert(c.subrange(4, 6)[j - 4] != b.subrange(4, 6)[j - 4]);
        if field(c, 4, 2) == field(b, 4, 2) {
            lemma_field_injective(c, b, 4, 2);
        }
    } else if 24 <= j < 28 {
        assert(c.subrange(0, 4) =~= b.subrange(0, 4));
        assert(c.subrange(4, 6) =~= b.subrange(4, 6));
        assert(checksum_region(c) =~= checksum_region(b));
        assert(c.subrange(24, 28)[j - 24] != b.subrange(24, 28)[j - 24]);
        if field(c, 24, 4) == field(b, 24, 4) {
            lemma_field_injective(c, b, 24, 4);
        }
    } else {
        assert(c.subrange(0, 4) =~= b.subrange(0, 4));
        assert(c.subrange(4, 6) =~= b.subrange(4, 6));
        assert(c.subrange(24, 28) =~= b.subrange(24, 28));
        let rb = checksum_region(b);
        let rc = checksum_region(c);
        let k = if j < 24 {
            j
        } else {
            j - 4
        };
        assert(rb.len() == rc.len());
        assert(rc[k] != rb[k]);
        assert forall|i: int| 0 <= i < rb.len() && i != k implies rb[i] == rc[i] by {}
        lemma_crc32c_detects_single_byte_change(rb, rc, k);
    }
}

/// A page image passes validation exactly when it carries this build's
/// magic and version, its stored checksum is the CRC32C of the rest of the
/// image, and, when a slot is expected, its stamped id is that slot: a page
/// stamped for any other slot is refused.
pub proof fn lemma_page_check_ok_exact(b: Seq<u8>, expected: Option<PageId>)
    ensures
        page_check(b, expected) is Ok <==> {
            &&& field(b, 0, 4) == MAGIC as nat
            &&& field(b, 4, 2) == FORMAT_VERSION as nat
            &&& field(b, 24, 4) == crc32c_spec(b.subrange(0, 24) + b.subrange(28, b.len() as int)) as nat
            &&& expected matches Some(id) ==> field(b, 8, 8) == id@
        },
        expected is Some && page_id_of(b) != expected->0@ ==> page_check(b, expected)
            == Err::<(), PageError>(
            PageError::MisdirectedPage { requested: expected->0@, found: page_id_of(b) as u64 },
        ) || page_check(b, None) is Err,
{
}

/// Checksum the whole page image, treating the four checksum bytes as absent.
fn compute_checksum(bytes: &[u8]) -> (crc: u32)
    requires
        bytes@.len() >= 28,
    ensures
        crc == checksum_of(bytes@),
{
    let (head, rest) = bytes.split_at(OFF_CRC);
    let (_crc_field, tail) = rest.split_at(4);
    let mut h = Crc32c::new();
    h.update(head);
    h.update(tail);
    proof {
        lemma_crc32c_streaming(head@, tail@);
        assert(head@ + tail@ =~= checksum_region(bytes@));
    }
    h.finalize()
}

/// Verify magic, version, checksum, and, if `expected` is set, the slot id of
/// a page image.
pub fn verify_bytes(bytes: &[u8], expected: Option<PageId>) -> (r: PageResult<()>)
    requires
        bytes@.len() >= 32,
    ensures
        r == page_check(bytes@, expected),
        r is Ok && expected is Some ==> page_id_of(bytes@) == expected->0@,
        r is Ok ==> magic_of(bytes@) == MAGIC as nat && version_of(bytes@) == FORMAT_VERSION as nat
            && stored_crc_of(bytes@) == checksum_of(bytes@) as nat,
{
    proof {
        lemma_page_check_ok_exact(bytes@, expected);
    }
    let magic = read_u32(bytes, OFF_MAGIC);
    if magic != MAGIC {
        return Err(PageError::BadMagic { found: magic, expected: MAGIC });
    }
    let version = read_u16(bytes, OFF_VERSION);
    if version != FORMAT_VERSION {
        return Err(PageError::UnsupportedVersion { found: version, supported: FORMAT_VERSION });
    }
    let stored = read_u32(bytes, OFF_CRC);
    let computed = compute_checksum(bytes);
    if stored != computed {
        return Err(
            PageError::ChecksumMismatch { page_id: read_u64(bytes, OFF_PAGE_ID), stored, computed },
        );
    }
    if let Some(expected) = expected {
        let found = read_u64(bytes, OFF_PAGE_ID);
        if found != expected.get() {
            return Err(PageError::MisdirectedPage { requested: expected.get(), found });
        }
    }
    Ok(())
}

/// A fresh page image of `size` bytes.
fn blank_bytes(size: usize) -> (buf: Vec<u8>)
    requires
        valid_page_size(size as nat),
    ensures
        buf@ == blank_page(size as nat),
        buf@.len() == size,
        page_image(buf@),
{
    let mut buf: Vec<u8> = Vec::with_capacity(size);
    let mut i: usize = 0;
    while i < size
        invariant
            i <= size,
            buf@ == zeros(i as nat),
        decreases size - i,
    {
        buf.push(0);
        i += 1;
        proof {
            assert(buf@ =~= zeros(i as nat));
        }
    }
    write_u32(buf.as_mut_slice(), OFF_MAGIC, MAGIC);
    write_u16(buf.as_mut_slice(), OFF_VERSION, FORMAT_VERSION);
    proof {
        let z = zeros(size as nat);
        lemma_byte_bounds();
        lemma_put_field(z, 0, 4, MAGIC as nat);
        lemma_put_field(put_field(z, 0, 4, MAGIC as nat), 4, 2, FORMAT_VERSION as nat);
        lemma_put_field_other(put_field(z, 0, 4, MAGIC as nat), 4, 2, FORMAT_VERSION as nat, 0, 4);
    }
    buf
}

/// A single fixed-size page: a header and a payload in one buffer.
///
/// The checksum is not maintained on every mutation: the page is checksummed
/// when it is stamped for a slot, or when it is serialized with
/// [`Page::to_checksummed_bytes`], and verified when it is loaded.
#[derive(Debug)]
pub struct Page {
    buf: Vec<u8>,
    size: usize,
}

impl View for Page {
    type V = Seq<u8>;

    /// The page image: all `page_size` bytes, header first.
    closed spec fn view(&self) -> Seq<u8> {
        self.buf@
    }
}

impl Page {
    #[verifier::type_invariant]
    pub closed spec fn inv(self) -> bool {
        &&& self.buf@.len() == self.size
        &&& page_image(self.buf@)
    }

    /// Write `v` as the `n`-byte field at `off`, past the magic and version.
    fn set_field(&mut self, off: usize, n: usize, v: u64)
        requires
            6 <= off,
            n <= 8,
            off + n <= old(self)@.len(),
            (v as nat) < byte_bound(n as nat),
        ensures
            final(self)@ == put_field(old(self)@, off as int, n as nat, v as nat),
    {
        proof {
            use_type_invariant(&*self);
        }
        let ghost orig = self.buf@;
        let mut rem: u64 = v;
        let mut i: usize = 0;
        while i < n
            invariant
                6 <= off,
                n <= 8,
                off + n <= orig.len(),
                self.buf@.len() == orig.len(),
                self.size == orig.len(),
                page_image(orig),
                i <= n,
                crate::le::le_bytes(v as nat, n as nat) == self.buf@.subrange(off as int, off + i)
                    + crate::le::le_bytes(rem as nat, (n - i) as nat),
                forall|j: int|
                    0 <= j < orig.len() && !(off <= j < off + i) ==> #[trigger] self.buf@[j]
                        == orig[j],
            decreases n - i,
        {
            let ghost before = self.buf@;
            let byte = (rem % 256) as u8;
            proof {
                crate::le::lemma_le_bytes_len(rem as nat / 256, (n - i - 1) as nat);
                assert forall|x: u8| #[trigger] page_image(before.update(off + i, x)) by {
                    let next = before.update(off + i, x);
                    assert(next.subrange(0, 6) =~= orig.subrange(0, 6));
                    lemma_keep_header(orig, next);
                }
            }
            self.buf[off + i] = byte;
            proof {
                assert(self.buf@.subrange(off as int, off + i + 1) =~= before.subrange(off as int, off + i)
                    + seq![byte]);
                assert(crate::le::le_bytes(rem as nat, (n - i) as nat) == seq![(rem as nat % 256) as u8]
                    + crate::le::le_bytes(rem as nat / 256, (n - i - 1) as nat));
            }
            rem = rem / 256;
            i = i + 1;
        }
        proof {
            crate::le::lemma_le_bytes_len(v as nat, n as nat);
            assert(crate::le::le_bytes(rem as nat, 0) =~= Seq::<u8>::empty());
            assert(self.buf@ =~= put_field(orig, off as int, n as nat, v as nat));
        }
    }

    /// Create an empty, zeroed page of the given size with a valid header.
    pub fn new(page_size: PageSize) -> (p: Page)
        ensures
            p@ == blank_page(page_size@ as nat),
    {
        let size = page_size.get();
        let buf = blank_bytes(size);
        Page { buf, size }
    }

    /// Load a page from a byte block, verifying its header and checksum.
    ///
    /// The block must be exactly `page_size` bytes; it is then validated as
    /// [`Page::verify`] does with no slot expected.
    pub fn from_bytes(page_size: PageSize, bytes: &[u8]) -> (r: PageResult<Page>)
        ensures
            match r {
                Ok(p) => bytes@.len() == page_size@ && page_check(bytes@, None) == Ok::<
                    (),
                    PageError,
                >(()) && p@ == bytes@,
                Err(e) => if bytes@.len() != page_size@ {
                    e == PageError::ShortRead {
                        page_id: 0,
                        got: bytes@.len() as usize,
                        page_size: page_size@,
                    }
                } else {
                    page_check(bytes@, None) == Err::<(), PageError>(e)
                },
            },
    {
        let size = page_size.get();
        if bytes.len() != size {
            return Err(PageError::ShortRead { page_id: 0, got: bytes.len(), page_size: size });
        }
        match verify_bytes(bytes, None) {
            Ok(()) => {},
            Err(e) => {
                return Err(e);
            },
        }
        let mut buf: Vec<u8> = Vec::with_capacity(size);
        let mut i: usize = 0;
        while i < size
            invariant
                size == bytes@.len(),
                i <= size,
                buf@ == bytes@.subrange(0, i as int),
            decreases size - i,
        {
            buf.push(bytes[i]);
            i += 1;
            proof {
                assert(buf@ =~= bytes@.subrange(0, i as int));
            }
        }
        proof {
            assert(buf@ =~= bytes@);
        }
        Ok(Page { buf, size })
    }

    /// The page size in bytes.
    pub fn page_size(&self) -> (n: usize)
        ensures
            n == self@.len(),
            valid_page_size(n as nat),
            page_image(self@),
    {
        proof {
            use_type_invariant(self);
        }
        self.size
    }

    /// The id stamped in the header. For a page from [`Page::new`] this is
    /// `0` until the page is stamped for a slot.
    pub fn id(&self) -> (id: PageId)
        ensures
            id@ == page_id_of(self@),
    {
        proof {
            use_type_invariant(self);
        }
        PageId(read_u64(self.buf.as_slice(), OFF_PAGE_ID))
    }

    /// The log sequence number stamped in the header.
    pub fn lsn(&self) -> (lsn: Lsn)
        ensures
            lsn@ == lsn_of(self@),
    {
        proof {
            use_type_invariant(self);
        }
        Lsn(read_u64(self.buf.as_slice(), OFF_LSN))
    }

    /// Set the log sequence number. It enters the checksum the next time the
    /// page is stamped or serialized.
    pub fn set_lsn(&mut self, lsn: Lsn)
        ensures
            final(self)@ == put_field(old(self)@, 16, 8, lsn@ as nat),
    {
        proof {
            use_type_invariant(&*self);
            lemma_byte_bounds();
        }
        self.set_field(OFF_LSN, 8, lsn.0);
    }

    /// The payload: the page bytes after the header.
    pub fn payload(&self) -> (p: &[u8])
        ensures
            p@ == payload_of(self@),
    {
        proof {
            use_type_invariant(self);
        }
        let (_header, payload) = self.buf.as_slice().split_at(PAGE_HEADER_SIZE);
        payload
    }

    /// The payload, mutably. Only the payload can change through it.
    pub fn payload_mut(&mut self) -> (p: &mut [u8])
        ensures
            p@ == payload_of(old(self)@),
            final(p)@.len() == p@.len(),
            final(self)@ == old(self)@.subrange(0, 32) + final(p)@,
    {
        proof {
            use_type_invariant(&*self);
        }
        proof {
            let b = self.buf@;
            assert forall|t: Seq<u8>| t.len() == b.len() - 32 implies #[trigger] page_image(
                b.subrange(0, 32) + t,
            ) by {
                assert((b.subrange(0, 32) + t).subrange(0, 6) =~= b.subrange(0, 6));
                lemma_keep_header(b, b.subrange(0, 32) + t);
            }
        }
        let payload = vec_tail_mut(&mut self.buf, PAGE_HEADER_SIZE);
        payload
    }

    /// The whole page as a checksummed byte block, ready to persist
    /// elsewhere. The stamped id is left untouched.
    pub fn to_checksummed_bytes(&self) -> (out: Vec<u8>)
        ensures
            out@ == with_checksum(self@),
            out@.len() == self@.len(),
            page_check(out@, None) == Ok::<(), PageError>(()),
            lsn_of(out@) == lsn_of(self@),
            page_id_of(out@) == page_id_of(self@),
            payload_of(out@) == payload_of(self@),
    {
        proof {
            use_type_invariant(self);
            lemma_with_checksum_verifies(self@);
            lemma_byte_bounds();
            lemma_put_field(self@, 24, 4, checksum_of(self@) as nat);
        }
        let mut out: Vec<u8> = Vec::with_capacity(self.size);
        let mut i: usize = 0;
        while i < self.size
            invariant
                self.size == self.buf@.len(),
                i <= self.size,
                out@ == self.buf@.subrange(0, i as int),
            decreases self.size - i,
        {
            out.push(self.buf[i]);
            i += 1;
            proof {
                assert(out@ =~= self.buf@.subrange(0, i as int));
            }
        }
        proof {
            assert(out@ =~= self.buf@);
        }
        let crc = compute_checksum(out.as_slice());
        write_u32(out.as_mut_slice(), OFF_CRC, crc);
        out
    }

    /// Stamp the slot id into the header and recompute the checksum.
    pub fn stamp(&mut self, id: PageId)
        ensures
            final(self)@ == stamped(old(self)@, id@ as nat),
            page_check(final(self)@, Some(id)) == Ok::<(), PageError>(()),
            lsn_of(final(self)@) == lsn_of(old(self)@),
            payload_of(final(self)@) == payload_of(old(self)@),
    {
        proof {
            use_type_invariant(&*self);
            lemma_byte_bounds();
            lemma_stamp_then_verify(self@, id);
        }
        self.set_field(OFF_PAGE_ID, 8, id.0);
        let crc = compute_checksum(self.buf.as_slice());
        self.set_field(OFF_CRC, 4, crc as u64);
    }

    /// Verify magic, version, checksum, and, if `expected` is set, the slot
    /// id.
    pub fn verify(&self, expected: Option<PageId>) -> (r: PageResult<()>)
        ensures
            r == page_check(self@, expected),
            r is Ok && expected is Some ==> page_id_of(self@) == expected->0@,
    {
        proof {
            use_type_invariant(self);
        }
        verify_bytes(self.buf.as_slice(), expected)
    }

    /// The whole page image.
    pub fn as_bytes(&self) -> (b: &[u8])
        ensures
            b@ == self@,
    {
        self.buf.as_slice()
    }

    /// Return the page to the state [`Page::new`] creates: zero bytes under a
    /// valid header.
    pub fn reset(&mut self)
        ensures
            final(self)@ == blank_page(old(self)@.len()),
    {
        proof {
            use_type_invariant(&*self);
        }
        let ghost orig = self.buf@;
        let mut i: usize = 6;
        while i < self.size
            invariant
                self.size == self.buf@.len(),
                self.buf@.len() == orig.len(),
                orig == old(self)@,
                6 <= i <= self.size,
                page_image(orig),
                forall|k: int| 0 <= k < 6 ==> #[trigger] self.buf@[k] == orig[k],
                forall|k: int| 6 <= k < i ==> #[trigger] self.buf@[k] == 0,
            decreases self.size - i,
        {
            proof {
                assert forall|x: u8| #[trigger] page_image(self.buf@.update(i as int, x)) by {
                    let next = self.buf@.update(i as int, x);
                    assert(next.subrange(0, 6) =~= orig.subrange(0, 6));
                    lemma_keep_header(orig, next);
                }
            }
            self.buf[i] = 0;
            i += 1;
        }
        proof {
            let n = orig.len();
            let blank = blank_page(n);
            let z = zeros(n);
            lemma_byte_bounds();
            lemma_put_field(z, 0, 4, MAGIC as nat);
            lemma_put_field(put_field(z, 0, 4, MAGIC as nat), 4, 2, FORMAT_VERSION as nat);
            lemma_put_field_other(
                put_field(z, 0, 4, MAGIC as nat),
                4,
                2,
                FORMAT_VERSION as nat,
                0,
                4,
            );
            assert(self.buf@.subrange(0, 4) =~= orig.subrange(0, 4));
            assert(self.buf@.subrange(4, 6) =~= orig.subrange(4, 6));
            lemma_field_injective(self.buf@, blank, 0, 4);
            lemma_field_injective(self.buf@, blank, 4, 2);
            assert forall|k: int| 0 <= k < n implies #[trigger] self.buf@[k] == blank[k] by {
                if k < 4 {
                    assert(self.buf@.subrange(0, 4)[k] == blank.subrange(0, 4)[k]);
                } else if k < 6 {
                    assert(self.buf@.subrange(4, 6)[k - 4] == blank.subrange(4, 6)[k - 4]);
                }
            }
            assert(self.buf@ =~= blank);
        }
    }
}

impl Clone for Page {
    /// A copy of the page with the same image.
    fn clone(&self) -> (p: Page)
        ensures
            p@ == self@,
    {
        proof {
            use_type_invariant(self);
        }
        let mut buf: Vec<u8> = Vec::with_capacity(self.size);
        let mut i: usize = 0;
        while i < self.size
            invariant
                self.size == self.buf@.len(),
                i <= self.size,
                buf@ == self.buf@.subrange(0, i as int),
            decreases self.size - i,
        {
            buf.push(self.buf[i]);
            i += 1;
            proof {
                assert(buf@ =~= self.buf@.subrange(0, i as int));
            }
        }
        proof {
            assert(buf@ =~= self.buf@);
        }
        Page { buf, size: self.size }
    }
}

} // verus!
