//! Grammar databases: a double array behind a short header.

use vstd::prelude::*;
use crate::array;
use crate::array::{DoubleArray, Match};
use crate::builder;
use crate::bytes;
use crate::codec;
use crate::codec::GramDbKey;
use crate::graph;
use crate::keyset;
use crate::laws;
use crate::progress;
use crate::progress::{Callback, Progress, Silent};
use crate::sketch;
use crate::sort;
use crate::trie;
use crate::words;

verus! {

/// The most results of a lookup that are kept.
pub const K_MAX_RESULTS: usize = 8;

/// The length of the header.
pub const METADATA_SIZE: usize = 44;

/// Where in the header the position of the array is. That position counts from here.
pub const ARRAY_OFFSET_POS: usize = 40;

/// The bytes that a file has besides the array.
pub const RESERVED_SIZE: usize = 1024;

/// The header of a database.
pub struct GramDbMetadata {
    /// The name of the format, with zeros behind it.
    pub format: [u8; 32],
    pub db_checksum: u32,
    /// The number of units of the array.
    pub double_array_size: u32,
    /// The position of the array, counted from the position of this field.
    pub double_array_offset: u32,
}

/// The bytes of some ASCII characters.
pub open spec fn ascii(s: Seq<char>) -> Seq<u8> {
    Seq::new(s.len(), |i: int| s[i] as u8)
}

/// What the name of the format begins with.
pub open spec fn format_prefix() -> Seq<u8> {
    ascii("Rime::Grammar/"@)
}

/// The name of the format that is written.
pub open spec fn format_name() -> Seq<u8> {
    ascii("Rime::Grammar/1.0"@)
}

impl GramDbMetadata {
    /// `b` is this header.
    pub open spec fn laid_out(&self, b: Seq<u8>) -> bool {
        &&& b.len() == 44
        &&& b.take(32) == self.format@
        &&& bytes::word_at(b, 32) == self.db_checksum
        &&& bytes::word_at(b, 36) == self.double_array_size
        &&& bytes::word_at(b, 40) == self.double_array_offset
    }

    /// The header of a file with an array of this many units right behind the header.
    pub fn new(double_array_size: u32) -> (res: GramDbMetadata)
        ensures
            res.format@ == format_name() + Seq::new(15, |i: int| 0u8),
            res.db_checksum == 0,
            res.double_array_size == double_array_size,
            res.double_array_offset == 4,
    {
        let mut format: [u8; 32] = [0; 32];
        let name: &str = "Rime::Grammar/1.0";
        let name_bytes: &[u8] = name.as_bytes();
        proof {
            reveal_strlit("Rime::Grammar/1.0");
            lemma_ascii_bytes(name);
        }
        let mut i: usize = 0;
        while i < name_bytes.len()
            invariant
                i <= name_bytes@.len(),
                name_bytes@ == format_name(),
                name_bytes@.len() == 17,
                format@.len() == 32,
                forall|j: int| 0 <= j < i ==> #[trigger] format@[j] == name_bytes@[j],
                forall|j: int| i <= j < 32 ==> #[trigger] format@[j] == 0,
            decreases name_bytes@.len() - i,
        {
            format[i] = name_bytes[i];
            i += 1;
        }
        assert(format@ =~= format_name() + Seq::new(15, |i: int| 0u8));
        GramDbMetadata {
            format: format,
            db_checksum: 0,
            double_array_size: double_array_size,
            double_array_offset: (METADATA_SIZE - ARRAY_OFFSET_POS) as u32,
        }
    }

    /// Writes the header behind `data`.
    pub fn write(&self, data: &mut Vec<u8>)
        ensures
            final(data)@.len() == old(data)@.len() + 44,
            final(data)@.take(old(data)@.len() as int) == old(data)@,
            self.laid_out(final(data)@.skip(old(data)@.len() as int)),
    {
        let ghost start: int = data@.len() as int;
        let mut i: usize = 0;
        while i < 32
            invariant
                i <= 32,
                start == old(data)@.len(),
                data@.len() == start + i,
                forall|j: int| 0 <= j < start ==> #[trigger] data@[j] == old(data)@[j],
                forall|j: int| 0 <= j < i ==> data@[start + j] == #[trigger] self.format@[j],
            decreases 32 - i,
        {
            data.push(self.format[i]);
            i += 1;
        }
        let ghost d0: Seq<u8> = data@;
        bytes::put_word(data, self.db_checksum);
        let ghost d1: Seq<u8> = data@;
        bytes::put_word(data, self.double_array_size);
        let ghost d2: Seq<u8> = data@;
        bytes::put_word(data, self.double_array_offset);
        proof {
            let b = data@.skip(start);
            assert(data@.take(start) =~= old(data)@) by {
                assert forall|j: int| 0 <= j < start implies data@[j] == old(data)@[j] by {
                    assert(data@[j] == d2[j]);
                    assert(d2[j] == d1[j]);
                    assert(d1[j] == d0[j]);
                }
            }
            assert(b.take(32) =~= self.format@) by {
                assert forall|j: int| 0 <= j < 32 implies b[j] == self.format@[j] by {
                    let x = start + j;
                    assert(data@[x] == d2[x]);
                    assert(d2[x] == d1[x]);
                    assert(d1[x] == d0[x]);
                }
            }
            assert(bytes::word_at(b, 32) == bytes::word_at(d1, start + 32));
            assert(bytes::word_at(b, 36) == bytes::word_at(d2, start + 36));
            assert(bytes::word_at(b, 40) == bytes::word_at(data@, start + 40));
        }
    }

    /// Reads the header at the start of `data`, if there are enough bytes.
    pub fn read(data: &[u8]) -> (res: Option<GramDbMetadata>)
        ensures
            header_read(data@, res),
    {
        if data.len() < METADATA_SIZE {
            return None;
        }
        let mut format: [u8; 32] = [0; 32];
        let mut i: usize = 0;
        while i < 32
            invariant
                i <= 32,
                data@.len() >= 44,
                format@.len() == 32,
                forall|j: int| 0 <= j < i ==> #[trigger] format@[j] == data@[j],
            decreases 32 - i,
        {
            format[i] = data[i];
            i += 1;
        }
        let m: GramDbMetadata = GramDbMetadata {
            format: format,
            db_checksum: bytes::get_word(data, 32),
            double_array_size: bytes::get_word(data, 36),
            double_array_offset: bytes::get_word(data, 40),
        };
        proof {
            let b = data@.take(44);
            assert(b.take(32) =~= m.format@);
        }
        Some(m)
    }

    /// Whether the name of the format is one that is understood.
    pub fn is_supported(&self) -> (res: bool)
        ensures
            res == supported(self.format@),
    {
        let prefix: &str = "Rime::Grammar/";
        let prefix_bytes: &[u8] = prefix.as_bytes();
        proof {
            reveal_strlit("Rime::Grammar/");
            lemma_ascii_bytes(prefix);
        }
        let mut i: usize = 0;
        while i < prefix_bytes.len()
            invariant
                i <= prefix_bytes@.len(),
                prefix_bytes@ == format_prefix(),
                prefix_bytes@.len() == 14,
                self.format@.len() == 32,
                forall|j: int| 0 <= j < i ==> #[trigger] self.format@[j] == prefix_bytes@[j],
            decreases prefix_bytes@.len() - i,
        {
            if self.format[i] != prefix_bytes[i] {
                assert(self.format@.take(14)[i as int] != format_prefix()[i as int]);
                return false;
            }
            i += 1;
        }
        assert(self.format@.take(14) =~= format_prefix());
        true
    }
}

/// The header at the start of `data` is `res`.
pub open spec fn header_read(data: Seq<u8>, res: Option<GramDbMetadata>) -> bool {
    match res {
        Some(m) => data.len() >= 44 && m.laid_out(data.take(44)),
        None => data.len() < 44,
    }
}

/// Whether the name of a format is one that is understood.
pub open spec fn supported(format: Seq<u8>) -> bool {
    format.take(14) == format_prefix()
}

/// The bytes of a string of ASCII characters are its characters.
proof fn lemma_ascii_bytes(s: &str)
    requires
        vstd::utf8::is_ascii_chars(s@),
    ensures
        vstd::utf8::encode_utf8(s@) == ascii(s@),
{
    vstd::utf8::is_ascii_chars_encode_utf8(s@);
    assert(vstd::utf8::encode_utf8(s@) =~= ascii(s@));
}

/// The first byte of the array.
pub open spec fn array_start(data: Seq<u8>) -> int {
    40 + bytes::word_at(data, 40)
}

/// The byte behind the array.
pub open spec fn array_end(data: Seq<u8>) -> int {
    array_start(data) + 4 * bytes::word_at(data, 36)
}

/// Why `data` is not a database, if it is not.
pub open spec fn open_error(data: Seq<u8>) -> Option<Seq<char>> {
    if data.len() < 44 {
        Some("File too small for metadata"@)
    } else if data.take(14) != format_prefix() {
        Some("Invalid .gram file format"@)
    } else if array_end(data) > usize::MAX {
        Some("Array data start + size overflows"@)
    } else if array_end(data) > data.len() {
        Some("Array data bounds exceed file size"@)
    } else if array_start(data) % 4 != 0 {
        Some("Darts array data is not aligned to 4 bytes"@)
    } else if bytes::word_at(data, 36) == 0 {
        Some("Darts array is empty"@)
    } else {
        None
    }
}

/// What a lookup finds: the keys that consist of `context` and a prefix of `word`, with the
/// lengths of those prefixes. The empty prefix does not count.
pub open spec fn lookup_matches(a: Seq<u32>, context: Seq<char>, word: Seq<char>) -> Seq<(i32, int)> {
    let w = codec::encode_chars(word);
    match trie::walk(a, 0, codec::encode_chars(context)) {
        Some(p) => array::prefix_matches(a, p, w, w.len() as int),
        None => Seq::empty(),
    }
}

/// A database.
pub struct GramDb<'a> {
    /// The keys with their values.
    pub trie: DoubleArray<'a>,
}

/// Opening the database in `data` gives `res`.
pub open spec fn database_read(data: Seq<u8>, res: Result<GramDb, &str>) -> bool {
    match res {
        Ok(db) => {
            &&& open_error(data) is None
            &&& db.trie.wf()
            &&& db.trie.units() == bytes::words(data.subrange(array_start(data), array_end(data)))
        },
        Err(e) => open_error(data) == Some(e@),
    }
}

/// The lookup of a word behind a context gives `res` matches, and makes `after` of what was in
/// the results before.
pub open spec fn looked_up(
    a: Seq<u32>,
    context: Seq<char>,
    word: Seq<char>,
    before: Seq<Match>,
    after: Seq<Match>,
    res: usize,
) -> bool {
    let found = lookup_matches(a, context, word);
    &&& res == found.len()
    &&& after.len() == before.len()
    &&& forall|i: int|
        #![trigger after[i]]
        0 <= i < after.len() ==> if i < found.len() {
            after[i].value == found[i].0 && after[i].length == found[i].1
        } else {
            after[i] == before[i]
        }
}

impl<'a> GramDb<'a> {
    /// The database in `data`, the contents of a file that was mapped from a page boundary on.
    /// The array must begin at a multiple of four bytes.
    pub fn from_bytes(data: &'a [u8]) -> (res: Result<GramDb<'a>, &'static str>)
        ensures
            database_read(data@, res),
    {
        let metadata: GramDbMetadata = match GramDbMetadata::read(data) {
            Some(metadata) => metadata,
            None => {
                return Err("File too small for metadata");
            },
        };
        proof {
            let b = data@.take(44);
            assert(metadata.format@.take(14) =~= data@.take(14)) by {
                assert forall|i: int| 0 <= i < 14 implies metadata.format@[i] == data@[i] by {
                    assert(b.take(32)[i] == data@[i]);
                }
            }
            assert(bytes::word_at(b, 36) == bytes::word_at(data@, 36));
            assert(bytes::word_at(b, 40) == bytes::word_at(data@, 40));
        }
        if !metadata.is_supported() {
            return Err("Invalid .gram file format");
        }
        let num_units: usize = metadata.double_array_size as usize;
        let start: usize = match ARRAY_OFFSET_POS.checked_add(metadata.double_array_offset as usize) {
            Some(start) => start,
            None => {
                return Err("Array data start + size overflows");
            },
        };
        let num_bytes: usize = match num_units.checked_mul(4) {
            Some(num_bytes) => num_bytes,
            None => {
                return Err("Array data start + size overflows");
            },
        };
        let end: usize = match start.checked_add(num_bytes) {
            Some(end) => end,
            None => {
                return Err("Array data start + size overflows");
            },
        };
        if end > data.len() {
            return Err("Array data bounds exceed file size");
        }
        match DoubleArray::new_at(&data[start..end], start) {
            Ok(trie) => Ok(GramDb { trie: trie }),
            Err(e) => Err(e),
        }
    }

    /// Finds the keys that consist of `context` and a prefix of `word`. Returns their number,
    /// and puts the first of them into `results`, with the lengths of the prefixes in bytes.
    pub fn lookup(&self, context: &str, word: &str, results: &mut [Match; K_MAX_RESULTS]) -> (res: usize)
        requires
            self.trie.wf(),
        ensures
            looked_up(self.trie.units(), context@, word@, old(results)@, final(results)@, res),
    {
        let ghost a: Seq<u32> = self.trie.units();
        let mut node_pos: usize = 0;
        let mut key_pos: usize = 0;
        let context_bytes: Vec<u8> = GramDbKey::encode(context);
        let word_bytes: Vec<u8> = GramDbKey::encode(word);
        let ghost c: Seq<u8> = context_bytes@;
        proof {
            self.trie.lemma_nonempty();
            array::lemma_matched(a, 0, c);
            assert(c.skip(0) =~= c);
            assert(array::tail(c, 0) == c);
            assert(c.take(c.len() as int) =~= c);
            if trie::walk(a, 0, c) is Some && c.len() > 0 {
                trie::lemma_walk_bounds(a, 0, c);
            }
        }
        let _value: i32 = self.trie.traverse(context_bytes.as_slice(), &mut node_pos, &mut key_pos);
        if key_pos == context_bytes.len() {
            self.trie.common_prefix_search(word_bytes.as_slice(), node_pos, results)
        } else {
            0
        }
    }
}

/// `image` is a file with the array `darts`: the header, the array right behind it, and
/// zeros up to 1024 bytes more than the array has.
pub open spec fn is_image(image: Seq<u8>, darts: Seq<u8>) -> bool {
    &&& image.len() == darts.len() + 1024
    &&& image.take(32) == format_name() + Seq::new(15, |i: int| 0u8)
    &&& bytes::word_at(image, 32) == 0
    &&& bytes::word_at(image, 36) == darts.len() / 4
    &&& bytes::word_at(image, 40) == 4
    &&& image.subrange(44, 44 + darts.len() as int) == darts
    &&& forall|i: int| 44 + darts.len() <= i < image.len() ==> #[trigger] image[i] == 0
}

/// The array in a file.
pub open spec fn darts_of(image: Seq<u8>) -> Seq<u8> {
    image.subrange(44, image.len() - 980)
}

/// The file with the array `darts`.
pub fn make_image(darts: &Vec<u8>) -> (res: Vec<u8>)
    requires
        darts@.len() <= 0x8000_0000,
        darts@.len() % 4 == 0,
    ensures
        is_image(res@, darts@),
{
    let array_size: u32 = (darts.len() / 4) as u32;
    let metadata: GramDbMetadata = GramDbMetadata::new(array_size);
    let mut image: Vec<u8> = Vec::with_capacity(darts.len() + RESERVED_SIZE);
    metadata.write(&mut image);
    let ghost head: Seq<u8> = image@;
    proof {
        assert(head.skip(0) =~= head);
    }
    let mut i: usize = 0;
    while i < darts.len()
        invariant
            i <= darts@.len(),
            head.len() == 44,
            image@ == head + darts@.take(i as int),
        decreases darts@.len() - i,
    {
        image.push(darts[i]);
        assert(image@ =~= head + darts@.take(i + 1));
        i += 1;
    }
    let ghost full: Seq<u8> = image@;
    assert(full =~= head + darts@);
    let mut j: usize = METADATA_SIZE;
    while j < RESERVED_SIZE
        invariant
            44 <= j <= 1024,
            head.len() == 44,
            full == head + darts@,
            image@ == full + Seq::new((j - 44) as nat, |x: int| 0u8),
        decreases 1024 - j,
    {
        image.push(0);
        assert(image@ =~= full + Seq::new((j + 1 - 44) as nat, |x: int| 0u8));
        j += 1;
    }
    proof {
        let im = image@;
        assert(im.take(32) =~= head.take(32));
        assert(im.subrange(44, 44 + darts@.len() as int) =~= darts@);
        assert(bytes::word_at(im, 32) == bytes::word_at(head, 32));
        assert(bytes::word_at(im, 36) == bytes::word_at(head, 36));
        assert(bytes::word_at(im, 40) == bytes::word_at(head, 40));
    }
    image
}

/// The keys of some entries, encoded.
pub open spec fn encoded(data: Seq<(String, i32)>) -> Seq<Seq<u8>> {
    Seq::new(data.len(), |i: int| codec::encode_chars(data[i].0@))
}

/// The values of some entries.
pub open spec fn scaled(data: Seq<(String, i32)>) -> Seq<i32> {
    Seq::new(data.len(), |i: int| data[i].1)
}

/// Whether the tree of the sorted keys has fewer than `limit` edges.
pub open spec fn smaller(keys: Seq<Seq<u8>>, limit: nat) -> bool {
    forall|order: Seq<usize>|
        #[trigger] sort::is_order(keys, order, 0, keys.len() as int) ==> words::trie_size(
            sort::permuted(keys, order),
            keys.len() as int,
        ) < limit
}

/// Whether every entry can be stored: its key is not empty, and its value is not negative.
pub open spec fn storable(data: Seq<(String, i32)>) -> bool {
    forall|i: int| 0 <= i < data.len() ==> (#[trigger] data[i]).0@.len() > 0 && data[i].1 >= 0
}

/// The keys of the entries, in order.
pub open spec fn sorted_keys(data: Seq<(String, i32)>) -> Seq<Seq<u8>> {
    sort::permuted(encoded(data), sort::order_of(encoded(data)))
}

/// The values of the entries, in the order of their keys.
pub open spec fn sorted_values(data: Seq<(String, i32)>) -> Seq<i32> {
    sort::picked(scaled(data), sort::order_of(encoded(data)))
}

/// The double array of the entries, with their keys in order; nothing if it would have more
/// units than a unit can reach.
pub open spec fn array_of(data: Seq<(String, i32)>) -> Option<Seq<u32>> {
    graph::layout(sketch::graph_of(sorted_keys(data), sorted_values(data)))
}

/// Who hears of the progress is `p` before and `q` after a database of these entries was built,
/// or could not be built.
pub open spec fn database_told<P: Progress>(p: P, data: Seq<(String, i32)>, ok: bool, q: P) -> bool {
    let n = data.len() as int;
    &&& q == (if n == 0 {
        p
    } else {
        builder::graph_told(p, sorted_keys(data), sorted_values(data))
    })
    &&& ok ==> q == progress::heard(p, 0, n + 1, n + 1)
}

/// Building a database of these entries gives `res`.
pub open spec fn database_built(data: Seq<(String, i32)>, res: Result<Vec<u8>, &str>) -> bool {
    match res {
        Ok(image) => {
            let darts = darts_of(image@);
            &&& data.len() > 0
            &&& storable(data)
            &&& is_image(image@, darts)
            &&& darts.len() % 1024 == 0
            &&& 0 < darts.len() <= 0x8000_0000
            &&& smaller(encoded(data), 30) ==> darts.len() == 1024
            &&& builder::holds(bytes::words(darts), words::dict_of(encoded(data), scaled(data)), true)
            &&& array_of(data) == Some(bytes::words(darts))
        },
        Err(e) => {
            ||| data.len() == 0 && e@ == "No data to build"@
            ||| {
                &&& data.len() > 0
                &&& e@ == "Failed to build double-array trie"@
                &&& !storable(data) || (array_of(data) is None && !smaller(encoded(data), 0x20_0000))
            }
        },
    }
}

/// Builds databases.
pub struct GramDbBuilder<P> {
    /// The keys with their values, as they are stored.
    pub data: Vec<(String, i32)>,
    pub progress: P,
}

impl GramDbBuilder<Silent> {
    /// A builder without entries that tells nobody of its progress.
    pub fn new() -> (res: GramDbBuilder<Silent>)
        ensures
            res.data@.len() == 0,
            res.progress.ready(),
    {
        GramDbBuilder { data: Vec::new(), progress: Silent }
    }
}

/// Adding the entries `more` to `before` gives `after`.
pub open spec fn extended(
    before: Seq<(String, i32)>,
    more: Seq<(String, i32)>,
    after: Seq<(String, i32)>,
) -> bool {
    after == before + more
}

impl<P> GramDbBuilder<P> {
    /// The same builder, which tells `func` of its progress: the items done and their total
    /// number.
    pub fn with_progress<F: Fn(usize, usize)>(self, func: F) -> (res: GramDbBuilder<Callback<F>>)
        ensures
            res.data == self.data,
            res.progress.func == func,
            res.progress.calls@ == Seq::<(usize, usize)>::empty(),
    {
        GramDbBuilder { data: self.data, progress: Callback { func: func, calls: Ghost(Seq::empty()) } }
    }

    /// Adds entries.
    pub fn extend_data(&mut self, data: Vec<(String, i32)>)
        ensures
            extended(old(self).data@, data@, final(self).data@),
            final(self).progress == old(self).progress,
    {
        let mut more: Vec<(String, i32)> = data;
        self.data.append(&mut more);
    }
}

impl<P: Progress> GramDbBuilder<P> {
    /// Builds the contents of a database file.
    pub fn build(&mut self) -> (res: Result<Vec<u8>, &'static str>)
        requires
            old(self).progress.ready(),
            old(self).data@.len() < usize::MAX,
            sketch::roomy(sorted_keys(old(self).data@), sorted_values(old(self).data@)),
        ensures
            final(self).data == old(self).data,
            final(self).progress.ready(),
            database_told(old(self).progress, old(self).data@, res is Ok, final(self).progress),
            database_built(old(self).data@, res),
    {
        if self.data.len() == 0 {
            return Err("No data to build");
        }
        let ghost data: Seq<(String, i32)> = self.data@;
        let ghost enc: Seq<Seq<u8>> = encoded(data);
        let ghost vals: Seq<i32> = scaled(data);
        let n: usize = self.data.len();
        let mut raw_keys: Vec<Vec<u8>> = Vec::new();
        let mut i: usize = 0;
        while i < n
            invariant
                i <= n,
                n == self.data@.len(),
                self.data == old(self).data,
                self.progress == old(self).progress,
                enc == encoded(self.data@),
                raw_keys@.len() == i,
                forall|j: int| 0 <= j < i ==> #[trigger] raw_keys@[j]@ == enc[j],
            decreases n - i,
        {
            raw_keys.push(GramDbKey::encode(self.data[i].0.as_str()));
            i += 1;
        }
        assert(sort::views(raw_keys@) =~= enc);
        let order: Vec<usize> = sort::sort_order(&raw_keys);
        let mut keys: Vec<&[u8]> = Vec::new();
        let mut values: Vec<i32> = Vec::new();
        let mut j: usize = 0;
        while j < n
            invariant
                j <= n,
                n == self.data@.len(),
                self.data == old(self).data,
                self.progress == old(self).progress,
                n == order@.len(),
                n == raw_keys@.len(),
                data == self.data@,
                vals == scaled(data),
                enc == encoded(data),
                sort::views(raw_keys@) == enc,
                forall|x: int| 0 <= x < n ==> 0 <= #[trigger] order@[x] < n,
                keys@.len() == j,
                values@.len() == j,
                forall|x: int| 0 <= x < j ==> #[trigger] keys@[x]@ == enc[order@[x] as int],
                forall|x: int| 0 <= x < j ==> #[trigger] values@[x] == vals[order@[x] as int],
            decreases n - j,
        {
            let k: usize = order[j];
            assert(sort::views(raw_keys@)[k as int] == raw_keys@[k as int]@);
            keys.push(raw_keys[k].as_slice());
            values.push(self.data[k].1);
            j += 1;
        }
        let ghost sorted_keys: Seq<Seq<u8>> = sort::permuted(enc, order@);
        let ghost sorted_values: Seq<i32> = sort::picked(vals, order@);
        proof {
            assert(keyset::key_seqs(keys@) =~= sorted_keys);
            assert(values@ =~= sorted_values);
            laws::law_order_ascends(enc, order@);
            lemma_sorted_entries(data, order@);
            laws::law_sequence_accepted(sorted_keys, sorted_values);
        }
        let given: &[i32] = values.as_slice();
        proof {
            sort::lemma_one_order(enc, order@);
        }
        let darts: Vec<u8> = match builder::build_array(keys.as_slice(), Some(given), &mut self.progress) {
            Ok(darts) => darts,
            Err(_) => {
                return Err("Failed to build double-array trie");
            },
        };
        let image: Vec<u8> = make_image(&darts);
        proof {
            assert(darts_of(image@) =~= darts@);
            let a = bytes::words(darts@);
            let d = words::dict_of(enc, vals);
            let e = words::dict_of(sorted_keys, sorted_values);
            assert forall|k: Seq<u8>| #[trigger] e(k) == d(k) by {
                laws::law_order_keeps_dict(enc, vals, order@, k);
            }
            builder::lemma_built(a, sorted_keys, Some(given));
            builder::lemma_holds_same(a, e, d, true);
        }
        Ok(image)
    }
}

/// Whether the tree of the keys of these entries is small is `res`.
pub open spec fn entries_fit(data: Seq<(String, i32)>, res: bool) -> bool {
    res == smaller(encoded(data), 0x4000_0000)
}

impl<P> GramDbBuilder<P> {
    /// Whether the tree of the keys is so small that there is room for their word graph, even
    /// if nothing is shared in it.
    pub fn fits(&self) -> (res: bool)
        ensures
            entries_fit(self.data@, res),
            res ==> sketch::roomy(sorted_keys(self.data@), sorted_values(self.data@)),
    {
        let ghost enc: Seq<Seq<u8>> = encoded(self.data@);
        let n: usize = self.data.len();
        let mut raw_keys: Vec<Vec<u8>> = Vec::new();
        let mut i: usize = 0;
        while i < n
            invariant
                i <= n,
                n == self.data@.len(),
                enc == encoded(self.data@),
                raw_keys@.len() == i,
                forall|j: int| 0 <= j < i ==> #[trigger] raw_keys@[j]@ == enc[j],
            decreases n - i,
        {
            raw_keys.push(GramDbKey::encode(self.data[i].0.as_str()));
            i += 1;
        }
        assert(sort::views(raw_keys@) =~= enc);
        let order: Vec<usize> = sort::sort_order(&raw_keys);
        let ghost keys: Seq<Seq<u8>> = sort::permuted(enc, order@);
        proof {
            assert(smaller(enc, 0x4000_0000) <==> words::trie_size(keys, n as int) < 0x4000_0000) by {
                if words::trie_size(keys, n as int) < 0x4000_0000 {
                    assert forall|other: Seq<usize>| #[trigger] sort::is_order(
                        enc,
                        other,
                        0,
                        enc.len() as int,
                    ) implies words::trie_size(sort::permuted(enc, other), enc.len() as int) < 0x4000_0000 by {
                        sort::lemma_one_order(enc, other);
                        sort::lemma_one_order(enc, order@);
                    }
                }
            }
        }
        let mut size: usize = 0;
        let mut j: usize = 0;
        while j < n
            invariant
                j <= n,
                n == order@.len(),
                n == raw_keys@.len(),
                n == enc.len(),
                enc == encoded(self.data@),
                sort::views(raw_keys@) == enc,
                forall|x: int| 0 <= x < n ==> 0 <= #[trigger] order@[x] < n,
                keys == sort::permuted(enc, order@),
                smaller(enc, 0x4000_0000) <==> words::trie_size(keys, n as int) < 0x4000_0000,
                size == words::trie_size(keys, j as int),
                size < 0x4000_0000,
                forall|x: int| 0 <= x < j ==> (#[trigger] keys[x]).len() < 0x4000_0000,
            decreases n - j,
        {
            let key: &[u8] = raw_keys[order[j]].as_slice();
            proof {
                assert(sort::views(raw_keys@)[order@[j as int] as int] == raw_keys@[order@[j as int] as int]@);
                assert(key@ == keys[j as int]);
                words::lemma_size_monotonic(keys, j + 1, n as int);
                words::lemma_len_bound(keys, j as int);
            }
            if key.len() >= 0x4000_0000 {
                return false;
            }
            let common: usize = if j > 0 {
                let before: &[u8] = raw_keys[order[j - 1]].as_slice();
                proof {
                    assert(sort::views(raw_keys@)[order@[j - 1] as int] == raw_keys@[order@[j - 1] as int]@);
                    assert(before@ == keys[j - 1]);
                    words::lemma_lcp(before@.push(0), key@.push(0));
                }
                words::common_len(before, key)
            } else {
                0
            };
            size = size + (key.len() + 1 - common);
            if size >= 0x4000_0000 {
                return false;
            }
            j += 1;
        }
        proof {
            sort::lemma_one_order(enc, order@);
            sketch::law_small_fits(keys, sorted_values(self.data@));
        }
        true
    }
}

/// Sorted entries can be stored if and only if the entries can.
pub proof fn lemma_sorted_entries(data: Seq<(String, i32)>, order: Seq<usize>)
    requires
        sort::is_order(encoded(data), order, 0, data.len() as int),
        data.len() <= usize::MAX,
    ensures
        builder::zero_free(sort::permuted(encoded(data), order)),
        storable(data) <==> laws::nonempty(sort::permuted(encoded(data), order)) && laws::nonnegative(
            sort::picked(scaled(data), order),
            data.len() as int,
        ),
{
    let enc = encoded(data);
    let vals = scaled(data);
    let ks = sort::permuted(enc, order);
    let vs = sort::picked(vals, order);
    assert forall|i: int| 0 <= i < ks.len() implies !(#[trigger] ks[i]).contains(0) && (ks[i].len() > 0 <==> data[order[i] as int].0@.len()
        > 0) by {
        codec::law_encode_zero_free(data[order[i] as int].0@);
        codec::law_encode_empty(data[order[i] as int].0@);
    }
    if storable(data) {
        assert forall|i: int| 0 <= i < ks.len() implies (#[trigger] ks[i]).len() > 0 by {
            let e = data[order[i] as int];
        }
        assert forall|i: int| 0 <= i < data.len() implies #[trigger] vs[i] >= 0 by {
            let e = data[order[i] as int];
        }
    }
    if laws::nonempty(ks) && laws::nonnegative(vs, data.len() as int) {
        assert forall|x: int| 0 <= x < data.len() implies (#[trigger] data[x]).0@.len() > 0 && data[x].1 >= 0 by {
            assert(order.contains(x as usize));
            let i = choose|i: int| 0 <= i < order.len() && order[i] == x as usize;
            assert(ks[i].len() > 0);
            assert(vs[i] >= 0);
        }
    }
}

} // verus!
