//! Read-only ZIP reader (stored and deflate entries).
use vstd::prelude::*;
use vstd::utf8::{valid_utf8, decode_utf8};
use crate::inflate::{inflate_raw, inflate_spec};
use crate::text::str_eq;

verus! {

pub struct ZipEntry {
    pub name: String,
    pub method: u16,
    pub comp_size: u32,
    pub uncomp_size: u32,
    pub local_offset: u32,
}

/// An entry as plain values: (name, method, compressed size, uncompressed size, local header offset).
pub type EntryView = (Seq<char>, u16, u32, u32, u32);

pub open spec fn entry_view(e: ZipEntry) -> EntryView {
    (e.name@, e.method, e.comp_size, e.uncomp_size, e.local_offset)
}

pub const EOCD_SIG: u32 = 0x06054b50;
pub const CENTRAL_SIG: u32 = 0x02014b50;
pub const LOCAL_SIG: u32 = 0x04034b50;

/// The little-endian 16-bit value at `d[p..p + 2]`.
pub open spec fn le16_at(d: Seq<u8>, p: int) -> int {
    d[p] as int + 256 * (d[p + 1] as int)
}

/// The little-endian 32-bit value at `d[p..p + 4]`.
pub open spec fn le32_at(d: Seq<u8>, p: int) -> int {
    le16_at(d, p) + 65536 * le16_at(d, p + 2)
}

/// What `String::from_utf8_lossy` makes of the bytes `b`.
pub uninterp spec fn lossy_text(b: Seq<u8>) -> Seq<char>;

/// `String::from_utf8_lossy(..).into_owned()`: the bytes as text. The contract names the result
/// (`lossy_text`) and says that valid UTF-8 comes out decoded as it is; how an invalid sequence
/// is replaced is left unsaid.
#[verifier::external_body]
pub(crate) fn string_from_utf8_lossy(b: &[u8]) -> (s: String)
    ensures
        s@ == lossy_text(b@),
        valid_utf8(b@) ==> s@ == decode_utf8(b@),
{
    String::from_utf8_lossy(b).into_owned()
}

fn rd16(d: &[u8], p: usize) -> (r: u16)
    requires
        p + 2 <= d@.len(),
    ensures
        r == le16_at(d@, p as int),
{
    let a = d[p];
    let b = d[p + 1];
    assert((a as u16) | ((b as u16) << 8u16) == a as u16 + 256 * (b as u16)) by (bit_vector);
    (a as u16) | ((b as u16) << 8u16)
}

fn rd32(d: &[u8], p: usize) -> (r: u32)
    requires
        p + 4 <= d@.len(),
    ensures
        r == le32_at(d@, p as int),
{
    let a = d[p];
    let b = d[p + 1];
    let c = d[p + 2];
    let e = d[p + 3];
    assert((a as u32) | ((b as u32) << 8u32) | ((c as u32) << 16u32) | ((e as u32) << 24u32) == (a
        as u32 + 256 * (b as u32)) + 65536 * (c as u32 + 256 * (e as u32))) by (bit_vector);
    (a as u32) | ((b as u32) << 8u32) | ((c as u32) << 16u32) | ((e as u32) << 24u32)
}

/// The end-of-central-directory record: the last offset in `stop..=off` that holds its signature.
pub open spec fn eocd_from(d: Seq<u8>, off: int, stop: int) -> Option<int>
    decreases off - stop,
{
    if off < stop {
        None
    } else if le32_at(d, off) == EOCD_SIG {
        Some(off)
    } else if off == stop {
        None
    } else {
        eocd_from(d, off - 1, stop)
    }
}

/// Where the end-of-central-directory record lies: searched backwards over the last
/// 22 + 65535 bytes (its size plus the longest comment).
pub open spec fn find_eocd(d: Seq<u8>) -> Option<int> {
    if d.len() < 22 {
        None
    } else {
        let max_back: int = if d.len() < 22 + 65535 {
            d.len() as int
        } else {
            22 + 65535int
        };
        eocd_from(d, d.len() - 22, d.len() - max_back)
    }
}

/// The `count` central-directory entries from offset `p` on, or None when one is cut off or
/// lacks its signature.
pub open spec fn central_entries(d: Seq<u8>, p: int, count: int) -> Option<Seq<EntryView>>
    decreases count,
{
    if count <= 0 {
        Some(Seq::empty())
    } else if p + 46 > d.len() || le32_at(d, p) != CENTRAL_SIG {
        None
    } else {
        let name_len = le16_at(d, p + 28);
        if p + 46 + name_len > d.len() {
            None
        } else {
            let e: EntryView = (
                lossy_text(d.subrange(p + 46, p + 46 + name_len)),
                le16_at(d, p + 10) as u16,
                le32_at(d, p + 20) as u32,
                le32_at(d, p + 24) as u32,
                le32_at(d, p + 42) as u32,
            );
            let next = p + 46 + name_len + le16_at(d, p + 30) + le16_at(d, p + 32);
            match central_entries(d, next, count - 1) {
                Some(rest) => Some(seq![e] + rest),
                None => None,
            }
        }
    }
}

/// The entries that the central directory of `d` lists, or None when `d` is no readable ZIP archive.
pub open spec fn zip_entries(d: Seq<u8>) -> Option<Seq<EntryView>> {
    match find_eocd(d) {
        Some(off) => central_entries(d, le32_at(d, off + 16), le16_at(d, off + 10)),
        None => None,
    }
}

proof fn lemma_eocd_from(d: Seq<u8>, off: int, stop: int)
    ensures
        eocd_from(d, off, stop) matches Some(p) ==> stop <= p <= off && le32_at(d, p) == EOCD_SIG
            && forall|q: int| p < q <= off ==> #[trigger] le32_at(d, q) != EOCD_SIG,
        eocd_from(d, off, stop) is None ==> forall|q: int| stop <= q <= off ==> #[trigger] le32_at(d, q)
            != EOCD_SIG,
    decreases off - stop,
{
    if off > stop && le32_at(d, off) != EOCD_SIG {
        lemma_eocd_from(d, off - 1, stop);
    }
}

proof fn lemma_central_count(d: Seq<u8>, p: int, count: int)
    ensures
        central_entries(d, p, count) matches Some(l) ==> l.len() == if count < 0 {
            0
        } else {
            count
        },
    decreases count,
{
    if count > 0 && p + 46 <= d.len() && le32_at(d, p) == CENTRAL_SIG {
        let name_len = le16_at(d, p + 28);
        let next = p + 46 + name_len + le16_at(d, p + 30) + le16_at(d, p + 32);
        lemma_central_count(d, next, count - 1);
    }
}

/// The end-of-central-directory record that an archive is read by is the last one in the
/// searched window (the last 22 + 65535 bytes), and the listing has as many entries as that
/// record counts; where no record is found, none lies in the window.
pub proof fn lemma_eocd_is_last(d: Seq<u8>)
    ensures
        find_eocd(d) matches Some(off) ==> {
            &&& off + 22 <= d.len()
            &&& le32_at(d, off) == EOCD_SIG
            &&& forall|q: int| off < q <= d.len() - 22 ==> #[trigger] le32_at(d, q) != EOCD_SIG
        },
        d.len() >= 22 && find_eocd(d) is None ==> forall|q: int|
            d.len() - 22 - 65535 <= q <= d.len() - 22 && 0 <= q ==> #[trigger] le32_at(d, q) != EOCD_SIG,
        zip_entries(d) matches Some(l) ==> find_eocd(d) matches Some(off) && l.len() == le16_at(
            d,
            off + 10,
        ),
{
    if d.len() >= 22 {
        let max_back: int = if d.len() < 22 + 65535 {
            d.len() as int
        } else {
            22 + 65535int
        };
        lemma_eocd_from(d, d.len() - 22, d.len() - max_back);
        if let Some(off) = find_eocd(d) {
            lemma_central_count(d, le32_at(d, off + 16), le16_at(d, off + 10));
        }
    }
}

/// The offset of the end-of-central-directory record.
fn locate_eocd(data: &[u8]) -> (r: Option<usize>)
    ensures
        match r {
            Some(off) => find_eocd(data@) == Some(off as int) && off + 22 <= data.len(),
            None => find_eocd(data@) is None,
        },
{
    let size = data.len();
    if size < 22 {
        return None;
    }
    let max_back = if size < 22 + 65535 {
        size
    } else {
        22 + 65535
    };
    let stop = size - max_back;
    let mut off = size - 22;
    while rd32(data, off) != EOCD_SIG
        invariant
            size == data@.len(),
            size >= 22,
            stop <= off <= size - 22,
            stop == size - max_back,
            size < 22 + 65535 ==> max_back == size,
            size >= 22 + 65535 ==> max_back == 22 + 65535,
            find_eocd(data@) == eocd_from(data@, off as int, stop as int),
        decreases off - stop,
    {
        if off == stop {
            return None;
        }
        off -= 1;
    }
    Some(off)
}

proof fn lemma_central_past_end(d: Seq<u8>, p1: int, p2: int, n: int)
    requires
        p1 + 46 > d.len(),
        p2 + 46 > d.len(),
    ensures
        central_entries(d, p1, n) == central_entries(d, p2, n),
{
}

/// Reads `count` central-directory entries from offset `start` on.
fn read_central(data: &[u8], start: usize, count: usize) -> (r: Option<Vec<ZipEntry>>)
    ensures
        match r {
            Some(v) => central_entries(data@, start as int, count as int) == Some(v@.map_values(|e: ZipEntry| entry_view(e))),
            None => central_entries(data@, start as int, count as int) is None,
        },
{
    let size = data.len();
    let ghost d = data@;
    let mut entries: Vec<ZipEntry> = Vec::new();
    let mut p: usize = start;
    let mut k: usize = 0;
    let ghost all = central_entries(d, start as int, count as int);
    proof {
        assert(entries@.map_values(|e: ZipEntry| entry_view(e)) =~= Seq::<EntryView>::empty());
        if let Some(x) = all {
            assert(Seq::<EntryView>::empty() + x =~= x);
        }
    }
    while k < count
        invariant
            d == data@,
            size == d.len(),
            k <= count,
            all == central_entries(d, start as int, count as int),
            all == match central_entries(d, p as int, count - k) {
                Some(rest) => Some(entries@.map_values(|e: ZipEntry| entry_view(e)) + rest),
                None => None::<Seq<EntryView>>,
            },
        decreases count - k,
    {
        if p > size || size - p < 46 || rd32(data, p) != CENTRAL_SIG {
            return None;
        }
        let method = rd16(data, p + 10);
        let comp_size = rd32(data, p + 20);
        let uncomp_size = rd32(data, p + 24);
        let name_len = rd16(data, p + 28) as usize;
        let extra_len = rd16(data, p + 30) as usize;
        let comment_len = rd16(data, p + 32) as usize;
        let local_offset = rd32(data, p + 42);
        if size - (p + 46) < name_len {
            return None;
        }
        let name = string_from_utf8_lossy(&data[p + 46..p + 46 + name_len]);
        let ghost before = entries@.map_values(|e: ZipEntry| entry_view(e));
        let ghost e: EntryView = (name@, method, comp_size, uncomp_size, local_offset);
        entries.push(ZipEntry { name, method, comp_size, uncomp_size, local_offset });
        let end = p + 46 + name_len;
        let ghost next = end + extra_len + comment_len;
        let np = if size - end < extra_len + comment_len {
            size
        } else {
            end + extra_len + comment_len
        };
        proof {
            assert(entries@.map_values(|e: ZipEntry| entry_view(e)) =~= before.push(e));
            if np != next {
                lemma_central_past_end(d, np as int, next, count - k - 1);
            }
            let rest = central_entries(d, next, count - k - 1);
            if let Some(r) = rest {
                assert(before + (seq![e] + r) =~= before.push(e) + r);
            }
        }
        p = np;
        k += 1;
    }
    proof {
        assert(entries@.map_values(|e: ZipEntry| entry_view(e)) + Seq::<EntryView>::empty()
            =~= entries@.map_values(|e: ZipEntry| entry_view(e)));
    }
    Some(entries)
}

/// The first entry of `listing` named `name`.
pub open spec fn first_named(listing: Seq<EntryView>, name: Seq<char>) -> Option<EntryView>
    decreases listing.len(),
{
    if listing.len() == 0 {
        None
    } else if listing[0].0 == name {
        Some(listing[0])
    } else {
        first_named(listing.drop_first(), name)
    }
}

proof fn lemma_first_named(listing: Seq<EntryView>, name: Seq<char>, i: int)
    requires
        0 <= i <= listing.len(),
        forall|j: int| 0 <= j < i ==> listing[j].0 != name,
    ensures
        i < listing.len() && listing[i].0 == name ==> first_named(listing, name) == Some(listing[i]),
        i == listing.len() ==> first_named(listing, name) is None,
    decreases i,
{
    if i > 0 {
        let rest = listing.drop_first();
        assert forall|j: int| 0 <= j < i - 1 implies rest[j].0 != name by {
            assert(rest[j] == listing[j + 1]);
        }
        lemma_first_named(rest, name, i - 1);
        if i < listing.len() {
            assert(rest[i - 1] == listing[i]);
        }
    } else if listing.len() > 0 && listing[0].0 != name {
        assert(i < listing.len());
    }
}

/// The output cap that inflating an entry of uncompressed size `size` uses: the size itself, and
/// one byte for an entry that says it holds nothing (a cap of 0 would mean no cap at all).
pub open spec fn inflate_cap(size: u32) -> int {
    if size == 0 {
        1
    } else {
        size as int
    }
}

/// What extracting an entry gives: its stored bytes, or its inflated bytes when they are as many
/// as the entry says; None when the local header or the sizes are off or the method is unknown.
pub open spec fn extract_spec(d: Seq<u8>, e: EntryView) -> Option<Seq<u8>> {
    match ZipArchive::data_start(d, e.4 as int, e.2 as int) {
        None => None,
        Some(start) => {
            let src = d.subrange(start, start + e.2);
            if e.1 == 0 {
                if e.2 == e.3 {
                    Some(src)
                } else {
                    None
                }
            } else if e.1 == 8 {
                match inflate_spec(src, inflate_cap(e.3)) {
                    Some(o) => if o.len() == e.3 {
                        Some(o)
                    } else {
                        None
                    },
                    None => None,
                }
            } else {
                None
            }
        },
    }
}

/// An entry's data begins after its local header, the header's file name and its extra field:
/// with the local header at `p`, name length `n` and extra length `x` (little-endian at
/// `p + 26` and `p + 28`), a stored entry extracts as exactly the `comp_size` bytes from
/// `p + 30 + n + x` on, and a deflated one inflates exactly those bytes.
pub proof fn lemma_entry_data_follows_header(d: Seq<u8>, e: EntryView)
    requires
        extract_spec(d, e) is Some,
    ensures
        ({
            let p = e.4 as int;
            let n = d[p + 26] as int + 256 * d[p + 27] as int;
            let x = d[p + 28] as int + 256 * d[p + 29] as int;
            let data = d.subrange(p + 30 + n + x, p + 30 + n + x + e.2);
            &&& p + 30 + n + x + e.2 <= d.len()
            &&& e.1 == 0 ==> extract_spec(d, e) == Some(data)
            &&& e.1 == 8 ==> extract_spec(d, e) == inflate_spec(data, inflate_cap(e.3))
        }),
{
}

/// The contents of the part named `name` in an archive with bytes `d` and entries `listing`:
/// what extracting the first entry of that name gives, or None when there is none.
pub open spec fn part_data(d: Seq<u8>, listing: Seq<EntryView>, name: Seq<char>) -> Option<Seq<u8>> {
    match first_named(listing, name) {
        Some(e) => extract_spec(d, e),
        None => None,
    }
}

pub struct ZipArchive<'a> {
    data: &'a [u8],
    entries: Vec<ZipEntry>,
}

impl<'a> ZipArchive<'a> {
    pub closed spec fn bytes(&self) -> Seq<u8> {
        self.data@
    }

    pub closed spec fn listing(&self) -> Seq<EntryView> {
        self.entries@.map_values(|e: ZipEntry| entry_view(e))
    }

    pub fn open(data: &'a [u8]) -> (r: Option<ZipArchive<'a>>)
        ensures
            match r {
                Some(z) => z.bytes() == data@ && zip_entries(data@) == Some(z.listing()),
                None => zip_entries(data@) is None,
            },
    {
        let off = match locate_eocd(data) {
            Some(o) => o,
            None => return None,
        };
        let count = rd16(data, off + 10) as usize;
        let cd_offset = rd32(data, off + 16) as usize;
        match read_central(data, cd_offset, count) {
            Some(entries) => Some(ZipArchive { data, entries }),
            None => None,
        }
    }

    pub fn find(&self, name: &str) -> (r: Option<&ZipEntry>)
        ensures
            match r {
                Some(e) => exists|i: int|
                    0 <= i < self.listing().len() && self.listing()[i] == entry_view(*e)
                        && e.name@ == name@ && forall|j: int| 0 <= j < i ==> self.listing()[j].0 != name@,
                None => forall|j: int| 0 <= j < self.listing().len() ==> self.listing()[j].0 != name@,
            },
            match r {
                Some(e) => first_named(self.listing(), name@) == Some(entry_view(*e)),
                None => first_named(self.listing(), name@) is None,
            },
    {
        let mut i: usize = 0;
        while i < self.entries.len()
            invariant
                i <= self.entries@.len(),
                forall|j: int| 0 <= j < i ==> self.listing()[j].0 != name@,
            decreases self.entries@.len() - i,
        {
            if str_eq(self.entries[i].name.as_str(), name) {
                let e = &self.entries[i];
                assert(self.listing()[i as int] == entry_view(*e));
                proof {
                    lemma_first_named(self.listing(), name@, i as int);
                }
                return Some(e);
            }
            i += 1;
        }
        proof {
            lemma_first_named(self.listing(), name@, i as int);
        }
        None
    }

    /// Where the data of an entry with local header at `p` and `comp` compressed bytes begins,
    /// when its local header is intact and the data lies within the archive.
    pub open spec fn data_start(d: Seq<u8>, p: int, comp: int) -> Option<int> {
        if p + 30 <= d.len() && le32_at(d, p) == LOCAL_SIG {
            let start = p + 30 + le16_at(d, p + 26) + le16_at(d, p + 28);
            if start + comp <= d.len() {
                Some(start)
            } else {
                None
            }
        } else {
            None
        }
    }

    /// The uncompressed contents of `entry`: stored data copied, deflated data inflated.
    /// None when the local header is damaged, the sizes disagree, or the method is unsupported.
    pub fn extract(&self, entry: &ZipEntry) -> (r: Option<Vec<u8>>)
        ensures
            ({
                let d = self.bytes();
                let start = Self::data_start(d, entry.local_offset as int, entry.comp_size as int);
                &&& r is Some ==> start is Some && (entry.method == 0 || entry.method == 8)
                &&& entry.method == 0 ==> (r is Some <==> (start is Some && entry.comp_size
                    == entry.uncomp_size))
                &&& entry.method == 0 ==> (r matches Some(v) ==> v@ == d.subrange(
                    start->0,
                    start->0 + entry.comp_size,
                ))
                &&& entry.method == 8 ==> (r matches Some(v) ==> v@.len() == entry.uncomp_size)
            }),
            match r {
                Some(v) => extract_spec(self.bytes(), entry_view(*entry)) == Some(v@),
                None => extract_spec(self.bytes(), entry_view(*entry)) is None,
            },
    {
        let p = entry.local_offset as usize;
        let size = self.data.len();
        if p > size || size - p < 30 || rd32(self.data, p) != LOCAL_SIG {
            return None;
        }
        let name_len = rd16(self.data, p + 26) as usize;
        let extra_len = rd16(self.data, p + 28) as usize;
        let comp = entry.comp_size as usize;
        if size - (p + 30) < name_len + extra_len || size - (p + 30 + name_len + extra_len) < comp {
            return None;
        }
        let data_offset = p + 30 + name_len + extra_len;
        let src = vstd::slice::slice_subrange(self.data, data_offset, data_offset + comp);
        if entry.method == 0 {
            if entry.comp_size != entry.uncomp_size {
                return None;
            }
            return Some(vstd::slice::slice_to_vec(src));
        }
        if entry.method == 8 {
            let cap: usize = if entry.uncomp_size == 0 {
                1
            } else {
                entry.uncomp_size as usize
            };
            let out = match inflate_raw(src, cap) {
                Some(o) => o,
                None => return None,
            };
            if out.len() == entry.uncomp_size as usize {
                return Some(out);
            }
            return None;
        }
        None
    }

    pub fn entries(&self) -> (r: &[ZipEntry])
        ensures
            r@.map_values(|e: ZipEntry| entry_view(e)) == self.listing(),
    {
        self.entries.as_slice()
    }
}

} // verus!
