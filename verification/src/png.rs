//! The palette of a PNG file: where it stands, whether it is in order, and the
//! file with a plain palette in its place.

use vstd::prelude::*;

verus! {

/// The first four bytes of a PNG file, as a big-endian word.
pub const PNG_MARK: u32 = 0x8950_4e47;

/// The next four.
pub const PNG_MARK_END: u32 = 0x0d0a_1a0a;

/// The name of a PNG file's header chunk, `IHDR`, as a big-endian word.
pub const HEADER_CHUNK: u32 = 0x4948_4452;

/// The name of its palette chunk, `PLTE`.
pub const PALETTE_CHUNK: u32 = 0x504c_5445;

/// The name of the chunks that hold its image data, `IDAT`.
pub const DATA_CHUNK: u32 = 0x4944_4154;

/// The name of those that hold the image data of an animation's frame, `fdAT`.
pub const FRAME_CHUNK: u32 = 0x6664_4154;

/// The colour type, in a PNG header, of pixels that index a palette.
pub const INDEXED: u8 = 3;

/// The bytes of a full palette: 256 colours of three bytes.
pub const FULL_PALETTE: u32 = 768;

/// The generator of a chunk's checksum, lowest power first.
pub const CRC_POLYNOMIAL: u32 = 0xedb8_8320;

/// The big-endian word at a position.
pub open spec fn word_at(bytes: Seq<u8>, at: int) -> int {
    bytes[at] * 0x100_0000 + bytes[at + 1] * 0x1_0000 + bytes[at + 2] * 0x100 + bytes[at + 3]
}

/// Reads the big-endian word at a position.
fn read_word(bytes: &Vec<u8>, at: usize) -> (word: u32)
    requires
        at + 4 <= bytes.len(),
    ensures
        word == word_at(bytes@, at as int),
{
    bytes[at] as u32 * 0x100_0000 + bytes[at + 1] as u32 * 0x1_0000 + bytes[at + 2] as u32 * 0x100
        + bytes[at + 3] as u32
}

/// A remainder of the checksum's division, some bits further on.
pub open spec fn crc_shifted(crc: u32, bits: nat) -> u32
    decreases bits,
{
    if bits == 0 {
        crc
    } else {
        let before = crc_shifted(crc, (bits - 1) as nat);
        if before & 1 == 1 {
            (before >> 1) ^ CRC_POLYNOMIAL
        } else {
            before >> 1
        }
    }
}

/// The remainder that the checksum's division leaves of these bytes.
pub open spec fn crc_of(bytes: Seq<u8>) -> u32
    decreases bytes.len(),
{
    if bytes.len() == 0 {
        0xffff_ffff
    } else {
        crc_shifted(crc_of(bytes.drop_last()) ^ bytes.last() as u32, 8)
    }
}

/// The checksum (CRC-32) of these bytes.
pub open spec fn checksum_of(bytes: Seq<u8>) -> u32 {
    crc_of(bytes) ^ 0xffff_ffff
}

/// Computes the checksum of the bytes from `start` to `end`.
pub fn checksum(bytes: &Vec<u8>, start: usize, end: usize) -> (sum: u32)
    requires
        start <= end <= bytes.len(),
    ensures
        sum == checksum_of(bytes@.subrange(start as int, end as int)),
{
    let mut crc: u32 = 0xffff_ffff;
    let mut i: usize = start;
    while i < end
        invariant
            start <= i <= end <= bytes.len(),
            crc == crc_of(bytes@.subrange(start as int, i as int)),
        decreases end - i,
    {
        crc = crc ^ bytes[i] as u32;
        let ghost mixed = crc;
        let mut bits: u32 = 0;
        while bits < 8
            invariant
                bits <= 8,
                crc == crc_shifted(mixed, bits as nat),
            decreases 8 - bits,
        {
            crc = if crc & 1 == 1 {
                (crc >> 1) ^ CRC_POLYNOMIAL
            } else {
                crc >> 1
            };
            bits += 1;
        }
        proof {
            let more = bytes@.subrange(start as int, i + 1);
            assert(more.drop_last() =~= bytes@.subrange(start as int, i as int));
        }
        i += 1;
    }
    crc ^ 0xffff_ffff
}

/// Where, from this chunk on, the palette stands that the pixels index: the
/// first one that is not empty, if it comes before the image data and is whole.
/// A chunk is its length, its name, that many bytes and a checksum. The colour
/// type is the header's tenth byte.
pub open spec fn palette_from(bytes: Seq<u8>, at: int, indexed: bool) -> Option<int>
    decreases bytes.len() - at,
{
    let length = word_at(bytes, at);
    let name = word_at(bytes, at + 4);
    let next = at + 12 + length;
    if at < 0 || at + 8 > bytes.len() || next > bytes.len() {
        None
    } else if name == DATA_CHUNK || name == FRAME_CHUNK {
        None
    } else if name == PALETTE_CHUNK && length > 0 {
        if indexed {
            Some(at)
        } else {
            None
        }
    } else if name == HEADER_CHUNK && length > 0 {
        palette_from(bytes, next, length >= 10 && bytes[at + 17] == INDEXED)
    } else {
        palette_from(bytes, next, indexed)
    }
}

/// Where the palette stands that the pixels of a PNG file index.
pub open spec fn palette_at(bytes: Seq<u8>) -> Option<int> {
    if bytes.len() >= 8 && word_at(bytes, 0) == PNG_MARK && word_at(bytes, 4) == PNG_MARK_END {
        palette_from(bytes, 8, false)
    } else {
        None
    }
}

/// The chunk holds whole colours, and no more than 256 of them.
pub open spec fn whole_colours(bytes: Seq<u8>, at: int) -> bool {
    word_at(bytes, at) % 3 == 0 && word_at(bytes, at) <= FULL_PALETTE
}

/// The chunk's checksum is that of its name and its bytes.
pub open spec fn checksum_holds(bytes: Seq<u8>, at: int) -> bool {
    let end = at + 8 + word_at(bytes, at);
    word_at(bytes, end) == checksum_of(bytes.subrange(at + 4, end))
}

/// Whether these bytes can be handed to a decoder that refuses a palette with
/// a wrong checksum, and else relies on its colours being whole and no more
/// than 256.
pub open spec fn palette_in_order(bytes: Seq<u8>) -> bool {
    match palette_at(bytes) {
        Some(at) => whole_colours(bytes, at) || !checksum_holds(bytes, at),
        None => true,
    }
}

/// A palette that is found is a whole chunk.
proof fn lemma_palette_is_whole(bytes: Seq<u8>, from: int, indexed: bool)
    requires
        from >= 0,
    ensures
        palette_from(bytes, from, indexed) matches Some(at) ==> {
            &&& from <= at
            &&& word_at(bytes, at) > 0
            &&& at + 12 + word_at(bytes, at) <= bytes.len()
        },
    decreases bytes.len() - from,
{
    let length = word_at(bytes, from);
    let name = word_at(bytes, from + 4);
    let next = from + 12 + length;
    if from + 8 <= bytes.len() && next <= bytes.len() {
        let found = length >= 10 && bytes[from + 17] == INDEXED;
        lemma_palette_is_whole(bytes, next, found);
        lemma_palette_is_whole(bytes, next, indexed);
    }
}

/// Finds the palette that the pixels of a PNG file index.
fn find_palette(bytes: &Vec<u8>) -> (found: Option<usize>)
    ensures
        match found {
            Some(at) => {
                &&& palette_at(bytes@) == Some(at as int)
                &&& at + 12 + word_at(bytes@, at as int) <= bytes.len()
            },
            None => palette_at(bytes@) is None,
        },
{
    let end: usize = bytes.len();
    if end < 8 || read_word(bytes, 0) != PNG_MARK || read_word(bytes, 4) != PNG_MARK_END {
        return None;
    }
    let mut at: usize = 8;
    let mut indexed: bool = false;
    while end - at >= 12
        invariant
            end == bytes@.len(),
            8 <= at <= end,
            palette_at(bytes@) == palette_from(bytes@, at as int, indexed),
        decreases end - at,
    {
        let length: u32 = read_word(bytes, at);
        let name: u32 = read_word(bytes, at + 4);
        if name == DATA_CHUNK || name == FRAME_CHUNK || end - at - 12 < length as usize {
            return None;
        }
        if name == PALETTE_CHUNK && length > 0 {
            return if indexed {
                Some(at)
            } else {
                None
            };
        }
        if name == HEADER_CHUNK && length > 0 {
            indexed = length >= 10 && bytes[at + 17] == INDEXED;
        }
        at = at + 12 + length as usize;
    }
    None
}

/// Checks the palette of a PNG file.
pub fn palette_fits(bytes: &Vec<u8>) -> (fits: bool)
    ensures
        fits == palette_in_order(bytes@),
{
    match find_palette(bytes) {
        Some(at) => {
            let length: u32 = read_word(bytes, at);
            let end: usize = at + 8 + length as usize;
            (length % 3 == 0 && length <= FULL_PALETTE) || read_word(bytes, end) != checksum(
                bytes,
                at + 4,
                end,
            )
        },
        None => true,
    }
}

/// A palette chunk that holds one colour, black.
pub open spec fn plain_palette() -> Seq<u8> {
    seq![0u8, 0, 0, 3, 80, 76, 84, 69, 0, 0, 0, 167, 122, 61, 218]
}

/// The file with the plain palette in place of the one that its pixels index,
/// and nothing else changed.
pub open spec fn with_plain_palette(bytes: Seq<u8>) -> Seq<u8> {
    match palette_at(bytes) {
        Some(at) => bytes.take(at) + plain_palette() + bytes.skip(
            at + 12 + word_at(bytes, at),
        ),
        None => bytes,
    }
}

/// Whatever the palette was, the plain one stands in its place and is in order.
pub proof fn law_plain_palette_is_in_order(bytes: Seq<u8>)
    ensures
        palette_at(with_plain_palette(bytes)) == palette_at(bytes),
        palette_in_order(with_plain_palette(bytes)),
{
    if let Some(at) = palette_at(bytes) {
        let plain = with_plain_palette(bytes);
        lemma_palette_is_whole(bytes, 8, false);
        assert(forall|i: int| 0 <= i < at ==> plain[i] == bytes[i]);
        assert(forall|i: int| 0 <= i < 15 ==> plain[at + i] == plain_palette()[i]);
        assert(word_at(plain, at) == 3);
        assert(word_at(plain, at + 4) == PALETTE_CHUNK);
        assert(word_at(plain, 0) == word_at(bytes, 0));
        assert(word_at(plain, 4) == word_at(bytes, 4));
        lemma_palette_keeps_its_place(bytes, plain, at, 8, false);
    }
}

/// A palette is found in the same place where the bytes before it are the same.
proof fn lemma_palette_keeps_its_place(
    bytes: Seq<u8>,
    other: Seq<u8>,
    at: int,
    from: int,
    indexed: bool,
)
    requires
        from >= 0,
        palette_from(bytes, from, indexed) == Some(at),
        forall|i: int| 0 <= i < at ==> other[i] == bytes[i],
        word_at(other, at) > 0,
        word_at(other, at + 4) == PALETTE_CHUNK,
        at + 12 + word_at(other, at) <= other.len(),
    ensures
        palette_from(other, from, indexed) == Some(at),
    decreases bytes.len() - from,
{
    let length = word_at(bytes, from);
    let name = word_at(bytes, from + 4);
    let next = from + 12 + length;
    if name != PALETTE_CHUNK || length == 0 {
        let kept = if name == HEADER_CHUNK && length > 0 {
            length >= 10 && bytes[from + 17] == INDEXED
        } else {
            indexed
        };
        assert(palette_from(bytes, next, kept) == Some(at));
        lemma_palette_is_whole(bytes, next, kept);
        lemma_palette_keeps_its_place(bytes, other, at, next, kept);
        assert(word_at(other, from) == length);
        assert(word_at(other, from + 4) == name);
    }
}

/// Nothing but the palette is replaced: what stands before it and what stands
/// after it stay as they are, and a file without one stays whole.
pub proof fn law_only_the_palette_is_replaced(bytes: Seq<u8>)
    ensures
        palette_at(bytes) is None ==> with_plain_palette(bytes) == bytes,
        palette_at(bytes) matches Some(at) ==> {
            let plain = with_plain_palette(bytes);
            let next = at + 12 + word_at(bytes, at);
            &&& 8 <= at < next <= bytes.len()
            &&& plain.take(at) == bytes.take(at)
            &&& plain.skip(at + 15) == bytes.skip(next)
            &&& word_at(plain, at) == 3
            &&& word_at(plain, at + 4) == PALETTE_CHUNK
        },
{
    if let Some(at) = palette_at(bytes) {
        let plain = with_plain_palette(bytes);
        lemma_palette_is_whole(bytes, 8, false);
        assert(plain.take(at) =~= bytes.take(at));
        assert(plain.skip(at + 15) =~= bytes.skip(at + 12 + word_at(bytes, at)));
        assert(forall|i: int| 0 <= i < 15 ==> plain[at + i] == plain_palette()[i]);
    }
}

proof fn lemma_shift_tells_apart(a: u32, b: u32, bits: nat)
    requires
        a != b,
    ensures
        crc_shifted(a, bits) != crc_shifted(b, bits),
    decreases bits,
{
    if bits > 0 {
        lemma_shift_tells_apart(a, b, (bits - 1) as nat);
        let x = crc_shifted(a, (bits - 1) as nat);
        let y = crc_shifted(b, (bits - 1) as nat);
        assert(x != y ==> (if x & 1 == 1 {
            (x >> 1) ^ 0xedb8_8320u32
        } else {
            x >> 1
        }) != (if y & 1 == 1 {
            (y >> 1) ^ 0xedb8_8320u32
        } else {
            y >> 1
        })) by (bit_vector);
    }
}

/// A checksum gives away a changed byte: bytes that differ in one place alone
/// have different ones.
pub proof fn law_checksum_tells_a_changed_byte(bytes: Seq<u8>, at: int, byte: u8)
    requires
        0 <= at < bytes.len(),
        byte != bytes[at],
    ensures
        checksum_of(bytes.update(at, byte)) != checksum_of(bytes),
    decreases bytes.len(),
{
    let other = bytes.update(at, byte);
    let before = bytes.drop_last();
    let (p, q) = (crc_of(before), crc_of(other.drop_last()));
    let (x, y) = (bytes.last() as u32, other.last() as u32);
    if at == bytes.len() - 1 {
        assert(other.drop_last() =~= before);
        assert(x != y ==> p ^ x != p ^ y) by (bit_vector);
    } else {
        assert(other.drop_last() =~= before.update(at, byte));
        law_checksum_tells_a_changed_byte(before, at, byte);
        assert(p ^ 0xffff_ffff != q ^ 0xffff_ffff ==> p != q) by (bit_vector);
        assert(x == y && p != q ==> p ^ x != q ^ y) by (bit_vector);
    }
    lemma_shift_tells_apart(p ^ x, q ^ y, 8);
    let (c, d) = (crc_of(bytes), crc_of(other));
    assert(c != d ==> c ^ 0xffff_ffff != d ^ 0xffff_ffff) by (bit_vector);
}

/// A checksum goes on from byte to byte: with one byte more it follows from that
/// byte and the checksum before, and that of no bytes is zero.
pub proof fn law_checksum_goes_on(bytes: Seq<u8>, byte: u8)
    ensures
        checksum_of(Seq::empty()) == 0,
        checksum_of(bytes.push(byte)) == crc_shifted(
            checksum_of(bytes) ^ 0xffff_ffff ^ byte as u32,
            8,
        ) ^ 0xffff_ffff,
{
    assert(0xffff_ffffu32 ^ 0xffff_ffffu32 == 0u32) by (bit_vector);
    let crc = crc_of(bytes);
    assert(crc ^ 0xffff_ffff ^ 0xffff_ffff == crc) by (bit_vector);
    assert(bytes.push(byte).drop_last() =~= bytes);
}

/// The checksum's division is one of polynomials without carries: the remainder
/// of a sum is the sum of the remainders, a shift by bits is a shift for each,
/// a set bit that is shifted out leaves the generator, and one that is not moves
/// down one place.
pub proof fn law_shifts_divide(a: u32, b: u32, m: nat, n: nat)
    ensures
        crc_shifted(a ^ b, n) == crc_shifted(a, n) ^ crc_shifted(b, n),
        crc_shifted(crc_shifted(a, m), n) == crc_shifted(a, m + n),
        crc_shifted(1, 1) == 0xedb8_8320,
        a & 1 == 0 ==> crc_shifted(a, 1) == a / 2,
        crc_shifted(a, 0) == a,
    decreases n,
{
    reveal_with_fuel(crc_shifted, 2);
    assert(1u32 & 1 == 1 && (1u32 >> 1) ^ 0xedb8_8320u32 == 0xedb8_8320u32) by (bit_vector);
    assert(a >> 1 == a / 2) by (bit_vector);
    assert(a & 1 == 0 ==> a & 1 != 1) by (bit_vector);
    if n > 0 {
        law_shifts_divide(a, b, m, (n - 1) as nat);
        let x = crc_shifted(a, (n - 1) as nat);
        let y = crc_shifted(b, (n - 1) as nat);
        assert((if (x ^ y) & 1 == 1 {
            ((x ^ y) >> 1) ^ 0xedb8_8320u32
        } else {
            (x ^ y) >> 1
        }) == (if x & 1 == 1 {
            (x >> 1) ^ 0xedb8_8320u32
        } else {
            x >> 1
        }) ^ (if y & 1 == 1 {
            (y >> 1) ^ 0xedb8_8320u32
        } else {
            y >> 1
        })) by (bit_vector);
    }
}

/// A chunk of a PNG file: its name as a big-endian word, its bytes, and the
/// four bytes of its checksum.
pub struct Chunk {
    pub name: int,
    pub data: Seq<u8>,
    pub sum: Seq<u8>,
}

/// A word's four bytes, the highest first.
pub open spec fn word_bytes(word: int) -> Seq<u8> {
    seq![
        (word / 0x100_0000) as u8,
        (word / 0x1_0000 % 0x100) as u8,
        (word / 0x100 % 0x100) as u8,
        (word % 0x100) as u8,
    ]
}

impl Chunk {
    /// Its name is a word, its length can be written in one, and its checksum
    /// takes four bytes.
    pub open spec fn wf(self) -> bool {
        &&& 0 <= self.name < 0x1_0000_0000
        &&& self.data.len() < 0x1_0000_0000
        &&& self.sum.len() == 4
    }

    /// As it stands in a file.
    pub open spec fn bytes(self) -> Seq<u8> {
        word_bytes(self.data.len() as int) + word_bytes(self.name) + self.data + self.sum
    }

    /// A chunk of this name that is not empty.
    pub open spec fn holds(self, name: u32) -> bool {
        self.name == name && self.data.len() > 0
    }

    /// A header whose colour type says that the pixels index a palette.
    pub open spec fn header_says_indexed(self) -> bool {
        self.data.len() >= 10 && self.data[9] == 3
    }

    /// Its checksum is that of its name and its bytes.
    pub open spec fn sum_is_right(self) -> bool {
        self.sum == word_bytes(checksum_of(word_bytes(self.name) + self.data) as int)
    }
}

/// Chunks one after the other.
pub open spec fn written(chunks: Seq<Chunk>) -> Seq<u8>
    decreases chunks.len(),
{
    if chunks.len() == 0 {
        Seq::empty()
    } else {
        chunks[0].bytes() + written(chunks.skip(1))
    }
}

/// Bytes that do not begin with a whole chunk.
pub open spec fn no_whole_chunk(bytes: Seq<u8>) -> bool {
    bytes.len() < 12 || 12 + word_at(bytes, 0) > bytes.len()
}

/// A PNG file: the eight bytes that mark it, chunks, and what no whole chunk is
/// left of.
pub open spec fn png_file(chunks: Seq<Chunk>, rest: Seq<u8>) -> Seq<u8> {
    seq![137u8, 80, 78, 71, 13, 10, 26, 10] + written(chunks) + rest
}

/// Whether the last header before a chunk says that the pixels index a palette.
pub open spec fn indexed_before(chunks: Seq<Chunk>, i: int, indexed: bool) -> bool
    decreases i,
{
    if i <= 0 {
        indexed
    } else if chunks[i - 1].holds(HEADER_CHUNK) {
        chunks[i - 1].header_says_indexed()
    } else {
        indexed_before(chunks, i - 1, indexed)
    }
}

/// The chunk is the palette that the pixels index: the first palette, before any
/// image data, after a header that says so.
pub open spec fn is_indexed_palette(chunks: Seq<Chunk>, i: int, indexed: bool) -> bool {
    &&& 0 <= i < chunks.len()
    &&& chunks[i].holds(PALETTE_CHUNK)
    &&& indexed_before(chunks, i, indexed)
    &&& forall|j: int|
        0 <= j < i ==> !(#[trigger] chunks[j]).holds(PALETTE_CHUNK) && chunks[j].name != DATA_CHUNK
            && chunks[j].name != FRAME_CHUNK
}

proof fn lemma_word_reads_back(word: int)
    requires
        0 <= word < 0x1_0000_0000,
    ensures
        word_at(word_bytes(word), 0) == word,
{
}

proof fn lemma_word_is_its_bytes(bytes: Seq<u8>)
    requires
        bytes.len() == 4,
    ensures
        word_bytes(word_at(bytes, 0)) == bytes,
{
    let (a, b, c, d) = (bytes[0] as int, bytes[1] as int, bytes[2] as int, bytes[3] as int);
    let low = c * 0x100 + d;
    let w = (a * 0x100 + b) * 0x1_0000 + low;
    assert(w / 0x1_0000 == a * 0x100 + b && w % 0x1_0000 == low);
    assert(w / 0x100 == (a * 0x100 + b) * 0x100 + c && w % 0x100 == d);
    assert(w / 0x100_0000 == a);
    assert(w / 0x1_0000 % 0x100 == b);
    assert(w / 0x100 % 0x100 == c);
    assert(word_at(bytes, 0) == w);
    assert(word_bytes(w) =~= bytes);
}

/// A chunk is read as it was written.
proof fn lemma_chunk_reads_back(front: Seq<u8>, chunk: Chunk, rest: Seq<u8>)
    requires
        chunk.wf(),
    ensures
        ({
            let file = front + chunk.bytes() + rest;
            let n = front.len() as int;
            let length = chunk.data.len() as int;
            &&& word_at(file, n) == length
            &&& word_at(file, n + 4) == chunk.name
            &&& length >= 10 ==> file[n + 17] == chunk.data[9]
            &&& word_at(file, n + 8 + length) == word_at(chunk.sum, 0)
            &&& file.subrange(n + 4, n + 8 + length) == word_bytes(chunk.name) + chunk.data
        }),
{
    let file = front + chunk.bytes() + rest;
    let n = front.len() as int;
    let length = chunk.data.len() as int;
    let (a, b) = (word_bytes(length), word_bytes(chunk.name));
    lemma_word_reads_back(length);
    lemma_word_reads_back(chunk.name);
    assert(file[n] == a[0] && file[n + 1] == a[1] && file[n + 2] == a[2] && file[n + 3] == a[3]);
    assert(file[n + 4] == b[0] && file[n + 5] == b[1] && file[n + 6] == b[2] && file[n + 7]
        == b[3]);
    assert(forall|k: int| 0 <= k < length ==> file[n + 8 + k] == chunk.data[k]);
    if length >= 10 {
        assert(file[n + 8 + 9] == chunk.data[9]);
    }
    let end = n + 8 + length;
    assert(file[end] == chunk.sum[0] && file[end + 1] == chunk.sum[1] && file[end + 2]
        == chunk.sum[2] && file[end + 3] == chunk.sum[3]);
    assert(file.subrange(n + 4, end) =~= b + chunk.data);
}

/// Whether the pixels index a palette, after a chunk.
spec fn indexed_after(chunk: Chunk, indexed: bool) -> bool {
    if chunk.holds(HEADER_CHUNK) {
        chunk.header_says_indexed()
    } else {
        indexed
    }
}

proof fn lemma_indexed_before(chunks: Seq<Chunk>, i: int, indexed: bool)
    requires
        0 <= i < chunks.len(),
    ensures
        indexed_before(chunks, i + 1, indexed) == indexed_before(
            chunks.skip(1),
            i,
            indexed_after(chunks[0], indexed),
        ),
    decreases i,
{
    if i > 0 {
        lemma_indexed_before(chunks, i - 1, indexed);
        assert(chunks.skip(1)[i - 1] == chunks[i]);
    } else {
        assert(indexed_before(chunks, 1, indexed) == indexed_after(chunks[0], indexed)) by {
            assert(indexed_before(chunks, 0, indexed) == indexed);
        }
    }
}

proof fn lemma_palette_one_on(chunks: Seq<Chunk>, i: int, indexed: bool)
    requires
        chunks.len() > 0,
        i >= 0,
        !chunks[0].holds(PALETTE_CHUNK),
        chunks[0].name != DATA_CHUNK,
        chunks[0].name != FRAME_CHUNK,
    ensures
        is_indexed_palette(chunks, i + 1, indexed) <==> is_indexed_palette(
            chunks.skip(1),
            i,
            indexed_after(chunks[0], indexed),
        ),
{
    let rest = chunks.skip(1);
    if i < rest.len() {
        lemma_indexed_before(chunks, i, indexed);
        assert(rest[i] == chunks[i + 1]);
        if is_indexed_palette(chunks, i + 1, indexed) {
            assert forall|j: int| 0 <= j < i implies !(#[trigger] rest[j]).holds(PALETTE_CHUNK)
                && rest[j].name != DATA_CHUNK && rest[j].name != FRAME_CHUNK by {
                assert(rest[j] == chunks[j + 1]);
            }
        }
        if is_indexed_palette(rest, i, indexed_after(chunks[0], indexed)) {
            assert forall|j: int| 0 <= j < i + 1 implies !(#[trigger] chunks[j]).holds(
                PALETTE_CHUNK,
            ) && chunks[j].name != DATA_CHUNK && chunks[j].name != FRAME_CHUNK by {
                if j > 0 {
                    assert(rest[j - 1] == chunks[j]);
                }
            }
        }
    }
}

/// The palette found at a position is this chunk of those that start there.
spec fn found_as(
    file: Seq<u8>,
    start: int,
    chunks: Seq<Chunk>,
    indexed: bool,
    at: int,
    i: int,
) -> bool {
    &&& is_indexed_palette(chunks, i, indexed)
    &&& at == start + written(chunks.take(i)).len()
    &&& whole_colours(file, at) == (chunks[i].data.len() % 3 == 0 && chunks[i].data.len() <= 768)
    &&& checksum_holds(file, at) == chunks[i].sum_is_right()
}

/// The walk over a file's bytes from a position on finds the palette among the
/// chunks that start there, or none.
#[verifier::opaque]
spec fn walk_agrees(file: Seq<u8>, start: int, chunks: Seq<Chunk>, indexed: bool) -> bool {
    match palette_from(file, start, indexed) {
        Some(at) => exists|i: int| found_as(file, start, chunks, indexed, at, i),
        None => forall|i: int| !#[trigger] is_indexed_palette(chunks, i, indexed),
    }
}

proof fn lemma_walk_at_palette(front: Seq<u8>, chunks: Seq<Chunk>, more: Seq<u8>, indexed: bool)
    requires
        chunks.len() > 0,
        chunks[0].wf(),
        chunks[0].holds(PALETTE_CHUNK),
    ensures
        walk_agrees(front + chunks[0].bytes() + more, front.len() as int, chunks, indexed),
{
    reveal(walk_agrees);
    let chunk = chunks[0];
    let file = front + chunk.bytes() + more;
    let n = front.len() as int;
    lemma_chunk_reads_back(front, chunk, more);
    assert(indexed_before(chunks, 0, indexed) == indexed);
    assert forall|i: int| i != 0 implies !#[trigger] is_indexed_palette(chunks, i, indexed) by {
        if is_indexed_palette(chunks, i, indexed) {
            assert(!chunks[0].holds(PALETTE_CHUNK));
        }
    }
    if indexed {
        assert(chunks.take(0) =~= Seq::empty());
        let sum = checksum_of(word_bytes(chunk.name) + chunk.data) as int;
        lemma_word_reads_back(sum);
        lemma_word_is_its_bytes(chunk.sum);
        assert(palette_from(file, n, indexed) == Some(n));
        let at = palette_from(file, n, indexed)->0;
        assert(found_as(file, n, chunks, indexed, at, 0));
    } else {
        assert(palette_from(file, n, indexed) is None);
        assert(!is_indexed_palette(chunks, 0, indexed));
    }
}

proof fn lemma_walk_past_chunk(
    file: Seq<u8>,
    start: int,
    next: int,
    chunks: Seq<Chunk>,
    indexed: bool,
)
    requires
        chunks.len() > 0,
        !chunks[0].holds(PALETTE_CHUNK),
        chunks[0].name != DATA_CHUNK,
        chunks[0].name != FRAME_CHUNK,
        next == start + chunks[0].bytes().len(),
        palette_from(file, start, indexed) == palette_from(
            file,
            next,
            indexed_after(chunks[0], indexed),
        ),
        walk_agrees(file, next, chunks.skip(1), indexed_after(chunks[0], indexed)),
    ensures
        walk_agrees(file, start, chunks, indexed),
{
    reveal(walk_agrees);
    let later = chunks.skip(1);
    let after = indexed_after(chunks[0], indexed);
    match palette_from(file, next, after) {
        Some(at) => {
            let i = choose|i: int| found_as(file, next, later, after, at, i);
            lemma_palette_one_on(chunks, i, indexed);
            assert(later[i] == chunks[i + 1]);
            let head = chunks.take(i + 1);
            assert(head[0] == chunks[0]);
            assert(head.skip(1) =~= later.take(i));
            assert(written(head).len() == chunks[0].bytes().len() + written(later.take(i)).len());
            assert(found_as(file, start, chunks, indexed, at, i + 1));
        },
        None => {
            assert forall|i: int| !#[trigger] is_indexed_palette(chunks, i, indexed) by {
                if is_indexed_palette(chunks, i, indexed) && i > 0 {
                    lemma_palette_one_on(chunks, i - 1, indexed);
                    assert(!is_indexed_palette(later, i - 1, after));
                }
            }
        },
    }
}

proof fn lemma_walk_at_data(file: Seq<u8>, start: int, chunks: Seq<Chunk>, indexed: bool)
    requires
        chunks.len() > 0 ==> chunks[0].name == DATA_CHUNK || chunks[0].name == FRAME_CHUNK,
        palette_from(file, start, indexed) is None,
    ensures
        walk_agrees(file, start, chunks, indexed),
{
    reveal(walk_agrees);
    assert forall|i: int| !#[trigger] is_indexed_palette(chunks, i, indexed) by {
        if is_indexed_palette(chunks, i, indexed) && i > 0 {
            assert(chunks[0].name != DATA_CHUNK);
        }
    }
}

proof fn lemma_walk_one_chunk(front: Seq<u8>, chunk: Chunk, more: Seq<u8>, indexed: bool)
    requires
        chunk.wf(),
        !chunk.holds(PALETTE_CHUNK),
    ensures
        ({
            let file = front + chunk.bytes() + more;
            let n = front.len() as int;
            if chunk.name == DATA_CHUNK || chunk.name == FRAME_CHUNK {
                palette_from(file, n, indexed) is None
            } else {
                palette_from(file, n, indexed) == palette_from(
                    file,
                    n + chunk.bytes().len(),
                    indexed_after(chunk, indexed),
                )
            }
        }),
{
    lemma_chunk_reads_back(front, chunk, more);
}

proof fn lemma_walk_finds_palette(
    front: Seq<u8>,
    chunks: Seq<Chunk>,
    rest: Seq<u8>,
    indexed: bool,
)
    requires
        forall|i: int| 0 <= i < chunks.len() ==> (#[trigger] chunks[i]).wf(),
        no_whole_chunk(rest),
    ensures
        walk_agrees(front + written(chunks) + rest, front.len() as int, chunks, indexed),
    decreases chunks.len(),
{
    let file = front + written(chunks) + rest;
    let n = front.len() as int;
    if chunks.len() == 0 {
        assert(file =~= front + rest);
        if rest.len() >= 12 {
            assert(file[n] == rest[0] && file[n + 1] == rest[1] && file[n + 2] == rest[2] && file[n
                + 3] == rest[3]);
        }
        lemma_walk_at_data(file, n, chunks, indexed);
    } else {
        let chunk = chunks[0];
        let later = chunks.skip(1);
        let more = written(later) + rest;
        assert(file =~= front + chunk.bytes() + more);
        if chunk.holds(PALETTE_CHUNK) {
            lemma_walk_at_palette(front, chunks, more, indexed);
        } else {
            lemma_walk_one_chunk(front, chunk, more, indexed);
            if chunk.name == DATA_CHUNK || chunk.name == FRAME_CHUNK {
                lemma_walk_at_data(file, n, chunks, indexed);
            } else {
                let longer = front + chunk.bytes();
                assert forall|i: int| 0 <= i < later.len() implies (#[trigger] later[i]).wf() by {
                    assert(later[i] == chunks[i + 1]);
                }
                lemma_walk_finds_palette(longer, later, rest, indexed_after(chunk, indexed));
                assert(file =~= longer + written(later) + rest);
                lemma_walk_past_chunk(file, n, longer.len() as int, chunks, indexed);
            }
        }
    }
}

proof fn lemma_one_palette(chunks: Seq<Chunk>, i: int, j: int)
    requires
        is_indexed_palette(chunks, i, false),
        is_indexed_palette(chunks, j, false),
    ensures
        i == j,
{
    if i < j {
        assert(!chunks[i].holds(PALETTE_CHUNK));
    }
    if j < i {
        assert(!chunks[j].holds(PALETTE_CHUNK));
    }
}

/// A PNG file is kept from the decoder only for the palette that its pixels
/// index, and only where that palette has a right checksum and a torn colour or
/// more than 256 colours. Whatever the other chunks are and whatever the file
/// ends with, every other PNG file is in order.
pub proof fn law_only_a_broken_palette_is_not_in_order(chunks: Seq<Chunk>, rest: Seq<u8>)
    requires
        forall|i: int| 0 <= i < chunks.len() ==> (#[trigger] chunks[i]).wf(),
        no_whole_chunk(rest),
    ensures
        palette_in_order(png_file(chunks, rest)) <==> forall|i: int| #[trigger]
            is_indexed_palette(chunks, i, false) ==> chunks[i].data.len() % 3 == 0
                && chunks[i].data.len() <= 768 || !chunks[i].sum_is_right(),
        palette_at(png_file(chunks, rest)) is Some <==> exists|i: int| #[trigger]
            is_indexed_palette(chunks, i, false),
        forall|i: int| #[trigger]
            is_indexed_palette(chunks, i, false) ==> palette_at(png_file(chunks, rest)) == Some(
                (8 + written(chunks.take(i)).len()) as int,
            ),
{
    let mark = seq![137u8, 80, 78, 71, 13, 10, 26, 10];
    let file = png_file(chunks, rest);
    assert(file[0] == 137 && file[1] == 80 && file[2] == 78 && file[3] == 71);
    assert(file[4] == 13 && file[5] == 10 && file[6] == 26 && file[7] == 10);
    lemma_walk_finds_palette(mark, chunks, rest, false);
    reveal(walk_agrees);
    if let Some(at) = palette_from(file, 8, false) {
        let i = choose|i: int| found_as(file, 8, chunks, false, at, i);
        assert forall|j: int| #[trigger] is_indexed_palette(chunks, j, false) implies j == i by {
            lemma_one_palette(chunks, i, j);
        }
    }
}

/// A file that does not begin as a PNG file does has no palette, and is in
/// order.
pub proof fn law_other_files_are_in_order(bytes: Seq<u8>)
    requires
        bytes.len() < 8 || bytes.take(8) != seq![137u8, 80, 78, 71, 13, 10, 26, 10],
    ensures
        palette_at(bytes) is None,
        palette_in_order(bytes),
        with_plain_palette(bytes) == bytes,
{
    if bytes.len() >= 8 {
        let mark = seq![137u8, 80, 78, 71, 13, 10, 26, 10];
        if word_at(bytes, 0) == PNG_MARK && word_at(bytes, 4) == PNG_MARK_END {
            assert(bytes.take(8) =~= mark);
        }
    }
}

/// Appends the bytes from `start` to `end` of one list to another.
fn append_range(into: &mut Vec<u8>, bytes: &Vec<u8>, start: usize, end: usize)
    requires
        start <= end <= bytes.len(),
    ensures
        final(into)@ == old(into)@ + bytes@.subrange(start as int, end as int),
{
    let mut i: usize = start;
    while i < end
        invariant
            start <= i <= end <= bytes.len(),
            into@ == old(into)@ + bytes@.subrange(start as int, i as int),
        decreases end - i,
    {
        into.push(bytes[i]);
        i += 1;
    }
}

/// Puts the plain palette in place of the one that the pixels index.
pub fn replace_palette(bytes: &Vec<u8>) -> (replaced: Vec<u8>)
    ensures
        replaced@ == with_plain_palette(bytes@),
{
    let mut replaced: Vec<u8> = Vec::new();
    match find_palette(bytes) {
        Some(at) => {
            let plain: Vec<u8> = vec![0u8, 0, 0, 3, 80, 76, 84, 69, 0, 0, 0, 167, 122, 61, 218];
            let next: usize = at + 12 + read_word(bytes, at) as usize;
            append_range(&mut replaced, bytes, 0, at);
            append_range(&mut replaced, &plain, 0, plain.len());
            append_range(&mut replaced, bytes, next, bytes.len());
        },
        None => append_range(&mut replaced, bytes, 0, bytes.len()),
    }
    assert(replaced@ =~= with_plain_palette(bytes@));
    replaced
}

} // verus!
