//! What users of databases can rely on, in terms of entries, bytes and texts.

use vstd::prelude::*;
use crate::array;
use crate::array::Match;
use crate::builder;
use crate::bytes;
use crate::codec;
use crate::error::BuildError;
use crate::gram;
use crate::gram::{GramDb, GramDbMetadata};
use crate::keyset;
use crate::laws;
use crate::progress;
use crate::progress::Callback;
use crate::promises;
use crate::refusals;
use crate::sort;
use crate::trie;
use crate::words;

verus! {

/// The name of the format that is written, and what a name has to begin with, in bytes.
pub proof fn law_format()
    ensures
        gram::format_name() == seq![
            82u8, 105u8, 109u8, 101u8, 58u8, 58u8, 71u8, 114u8, 97u8, 109u8, 109u8, 97u8, 114u8, 47u8, 49u8, 46u8, 48u8,
        ],
        gram::format_prefix() == seq![
            82u8, 105u8, 109u8, 101u8, 58u8, 58u8, 71u8, 114u8, 97u8, 109u8, 109u8, 97u8, 114u8, 47u8,
        ],
{
    reveal_strlit("Rime::Grammar/1.0");
    reveal_strlit("Rime::Grammar/");
    assert(gram::format_name() =~= seq![
        82u8, 105u8, 109u8, 101u8, 58u8, 58u8, 71u8, 114u8, 97u8, 109u8, 109u8, 97u8, 114u8, 47u8, 49u8, 46u8, 48u8,
    ]);
    assert(gram::format_prefix() =~= seq![
        82u8, 105u8, 109u8, 101u8, 58u8, 58u8, 71u8, 114u8, 97u8, 109u8, 109u8, 97u8, 114u8, 47u8,
    ]);
}

/// A format is understood if its name begins with "Rime::Grammar/".
pub proof fn law_supported(format: Seq<u8>)
    requires
        format.len() >= 14,
    ensures
        gram::supported(format) <==> format.take(14) == seq![
            82u8, 105u8, 109u8, 101u8, 58u8, 58u8, 71u8, 114u8, 97u8, 109u8, 109u8, 97u8, 114u8, 47u8,
        ],
{
    law_format();
}

/// The word at a multiple of four, as a number.
proof fn lemma_word_at(data: Seq<u8>, i: int)
    requires
        0 <= i,
        i + 4 <= data.len(),
    ensures
        bytes::word_at(data, i) == data[i] + 256 * data[i + 1] + 65536 * data[i + 2] + 16777216 * data[i + 3],
{
    let four = data.subrange(i, i + 4);
    bytes::law_words(four, 0);
    assert(bytes::words(four)[0] == bytes::word_at(four, 0));
}

/// A header is written as the bytes of the name of its format and three numbers, each with its
/// lowest byte first.
pub proof fn law_header(m: GramDbMetadata, b: Seq<u8>)
    requires
        m.laid_out(b),
    ensures
        b.len() == 44,
        forall|i: int| 0 <= i < 32 ==> #[trigger] b[i] == m.format@[i],
        m.db_checksum == b[32] + 256 * b[33] + 65536 * b[34] + 16777216 * b[35],
        m.double_array_size == b[36] + 256 * b[37] + 65536 * b[38] + 16777216 * b[39],
        m.double_array_offset == b[40] + 256 * b[41] + 65536 * b[42] + 16777216 * b[43],
{
    lemma_word_at(b, 32);
    lemma_word_at(b, 36);
    lemma_word_at(b, 40);
    assert forall|i: int| 0 <= i < 32 implies #[trigger] b[i] == m.format@[i] by {
        assert(b.take(32)[i] == m.format@[i]);
    }
}

/// A header is read from the first 44 bytes, if there are so many.
pub proof fn law_header_read(data: Seq<u8>, res: Option<GramDbMetadata>)
    requires
        gram::header_read(data, res),
    ensures
        res is None <==> data.len() < 44,
        res matches Some(m) ==> {
            &&& forall|i: int| 0 <= i < 32 ==> m.format@[i] == #[trigger] data[i]
            &&& m.db_checksum == data[32] + 256 * data[33] + 65536 * data[34] + 16777216 * data[35]
            &&& m.double_array_size == data[36] + 256 * data[37] + 65536 * data[38] + 16777216 * data[39]
            &&& m.double_array_offset == data[40] + 256 * data[41] + 65536 * data[42] + 16777216 * data[43]
        },
{
    if let Some(m) = res {
        let b = data.take(44);
        law_header(m, b);
        assert forall|i: int| 0 <= i < 32 implies m.format@[i] == #[trigger] data[i] by {
            assert(b[i] == m.format@[i]);
        }
    }
}

/// The file with an array: the name of the format, zeros, the number of units, a four, the array
/// from the byte 44 on, and zeros up to 1024 bytes more than the array has.
pub proof fn law_image(image: Seq<u8>, darts: Seq<u8>)
    requires
        gram::is_image(image, darts),
    ensures
        image.len() == darts.len() + 1024,
        image.take(17) == seq![
            82u8, 105u8, 109u8, 101u8, 58u8, 58u8, 71u8, 114u8, 97u8, 109u8, 109u8, 97u8, 114u8, 47u8, 49u8, 46u8, 48u8,
        ],
        forall|i: int| 17 <= i < 36 ==> #[trigger] image[i] == 0,
        image[36] + 256 * image[37] + 65536 * image[38] + 16777216 * image[39] == darts.len() / 4,
        image[40] == 4,
        image[41] == 0,
        image[42] == 0,
        image[43] == 0,
        forall|i: int| 44 <= i < 44 + darts.len() ==> #[trigger] image[i] == darts[i - 44],
        forall|i: int| 44 + darts.len() <= i < image.len() ==> #[trigger] image[i] == 0,
{
    law_format();
    lemma_word_at(image, 32);
    lemma_word_at(image, 36);
    lemma_word_at(image, 40);
    let head = gram::format_name() + Seq::new(15, |i: int| 0u8);
    assert(image.take(17) =~= gram::format_name()) by {
        assert forall|i: int| 0 <= i < 17 implies image[i] == gram::format_name()[i] by {
            assert(image.take(32)[i] == head[i]);
        }
    }
    assert forall|i: int| 17 <= i < 36 implies #[trigger] image[i] == 0 by {
        if i < 32 {
            assert(image.take(32)[i] == head[i]);
        }
    }
    assert forall|i: int| 44 <= i < 44 + darts.len() implies #[trigger] image[i] == darts[i - 44] by {
        assert(image.subrange(44, 44 + darts.len() as int)[i - 44] == darts[i - 44]);
    }
}

/// A file is opened if it has a header of a known format and an array at a multiple of four that
/// is not empty and does not go beyond the end; else the error says which of these it lacks. The
/// units of the array are its bytes by four, the lowest first.
pub proof fn law_open(data: Seq<u8>, res: Result<GramDb, &str>)
    requires
        gram::database_read(data, res),
        data.len() <= usize::MAX,
    ensures
        ({
            let size = data[36] + 256 * data[37] + 65536 * data[38] + 16777216 * data[39];
            let start = 40 + data[40] + 256 * data[41] + 65536 * data[42] + 16777216 * data[43];
            let end = start + 4 * size;
            if data.len() < 44 {
                res matches Err(e) && e@ == "File too small for metadata"@
            } else if data.take(14) != seq![
                82u8, 105u8, 109u8, 101u8, 58u8, 58u8, 71u8, 114u8, 97u8, 109u8, 109u8, 97u8, 114u8, 47u8,
            ] {
                res matches Err(e) && e@ == "Invalid .gram file format"@
            } else if end > usize::MAX {
                res matches Err(e) && e@ == "Array data start + size overflows"@
            } else if end > data.len() {
                res matches Err(e) && e@ == "Array data bounds exceed file size"@
            } else if start % 4 != 0 {
                res matches Err(e) && e@ == "Darts array data is not aligned to 4 bytes"@
            } else if size == 0 {
                res matches Err(e) && e@ == "Darts array is empty"@
            } else {
                res matches Ok(db) && db.trie.units().len() == size && forall|i: int|
                    0 <= i < size ==> #[trigger] db.trie.units()[i] == data[start + 4 * i] + 256 * data[start + 4 * i + 1]
                        + 65536 * data[start + 4 * i + 2] + 16777216 * data[start + 4 * i + 3]
            }
        }),
{
    law_format();
    if data.len() >= 44 {
        lemma_word_at(data, 36);
        lemma_word_at(data, 40);
        if let Ok(db) = res {
            let start = gram::array_start(data);
            let end = gram::array_end(data);
            let part = data.subrange(start, end);
            let size = bytes::word_at(data, 36) as int;
            assert(part.len() == 4 * size);
            assert forall|i: int| 0 <= i < size implies #[trigger] db.trie.units()[i] == data[start + 4 * i] + 256
                * data[start + 4 * i + 1] + 65536 * data[start + 4 * i + 2] + 16777216 * data[start + 4 * i + 3] by {
                bytes::law_words(part, i);
            }
        }
    }
}

/// A lookup follows the context from the root. If that goes to its end, the lookup is a search
/// for prefixes of the word from there; else there is nothing to be found.
pub proof fn law_lookup(
    a: Seq<u32>,
    context: Seq<char>,
    word: Seq<char>,
    before: Seq<Match>,
    after: Seq<Match>,
    res: usize,
    value: i32,
    end_node: usize,
    end_pos: usize,
)
    requires
        0 < a.len() <= u32::MAX,
        gram::looked_up(a, context, word, before, after, res),
        array::followed(a, codec::encode_chars(context), 0, 0, value, end_node, end_pos),
    ensures
        if end_pos == codec::encode_chars(context).len() {
            array::searched(a, codec::encode_chars(word), end_node, before, after, res)
        } else {
            res == 0 && after == before
        },
{
    let c = codec::encode_chars(context);
    promises::lemma_from_node(a, c, 0, value, end_node, end_pos);
    if end_pos == c.len() {
        if c.len() > 0 {
            trie::lemma_walk_bounds(a, 0, c);
        }
        assert(end_node < a.len());
    } else {
        assert(after =~= before);
    }
}

/// Entries whose keys are not empty and whose values are not negative make a database, if there
/// are any and they are not too many; a database of few has 2048 bytes. If a key is empty or a
/// value is negative, there is no database.
pub proof fn law_build(data: Seq<(String, i32)>, res: Result<Vec<u8>, &str>, m: nat)
    requires
        gram::database_built(data, res),
        data.len() <= usize::MAX,
    ensures
        data.len() == 0 ==> (res matches Err(e) && e@ == "No data to build"@),
        data.len() > 0 ==> (res matches Err(e) ==> e@ == "Failed to build double-array trie"@),
        (exists|i: int| 0 <= i < data.len() && ((#[trigger] data[i]).0@.len() == 0 || data[i].1 < 0)) ==> res is Err,
        data.len() > 0 && (forall|i: int|
            0 <= i < data.len() ==> (#[trigger] data[i]).0@.len() > 0 && data[i].1 >= 0 && codec::encode_chars(
                data[i].0@,
            ).len() < m) ==> {
            &&& data.len() * m < 2097152 ==> res is Ok
            &&& data.len() * m < 30 ==> (res matches Ok(image) && image@.len() == 2048)
        },
{
    if forall|i: int|
        0 <= i < data.len() ==> (#[trigger] data[i]).0@.len() > 0 && data[i].1 >= 0 && codec::encode_chars(
            data[i].0@,
        ).len() < m {
        if data.len() * m < 2097152 {
            lemma_smaller(data, m, 0x20_0000);
        }
        if data.len() * m < 30 {
            lemma_smaller(data, m, 30);
        }
    }
}

proof fn lemma_smaller(data: Seq<(String, i32)>, m: nat, limit: nat)
    requires
        forall|i: int| 0 <= i < data.len() ==> codec::encode_chars((#[trigger] data[i]).0@).len() < m,
        data.len() * m < limit,
        data.len() <= usize::MAX,
    ensures
        gram::smaller(gram::encoded(data), limit),
{
    let keys = gram::encoded(data);
    let n = keys.len() as int;
    assert forall|order: Seq<usize>| #[trigger] sort::is_order(keys, order, 0, n) implies words::trie_size(
        sort::permuted(keys, order),
        n,
    ) < limit by {
        let ks = sort::permuted(keys, order);
        assert forall|i: int| 0 <= i < ks.len() implies (#[trigger] ks[i]).len() < m by {
            let e = data[order[i] as int];
        }
        refusals::lemma_size(ks, m, n);
    }
}

/// There is no room for a key of 2^30 bytes or more.
pub proof fn law_fits_keys(data: Seq<(String, i32)>, order: Seq<usize>, i: int)
    requires
        gram::entries_fit(data, true),
        data.len() <= usize::MAX,
        0 <= i < data.len(),
        sort::is_order(gram::encoded(data), order, 0, data.len() as int),
    ensures
        codec::encode_chars(data[i].0@).len() + 1 < 1073741824,
{
    let keys = gram::encoded(data);
    let ks = sort::permuted(keys, order);
    assert(order.contains(i as usize));
    let j = choose|j: int| 0 <= j < order.len() && order[j] == i as usize;
    words::lemma_len_bound(ks, j);
    words::lemma_size_monotonic(ks, j + 1, ks.len() as int);
    assert(ks[j] == codec::encode_chars(data[i].0@));
    assert(sort::is_order(keys, order, 0, keys.len() as int));
    assert(words::trie_size(sort::permuted(keys, order), keys.len() as int) < 0x4000_0000);
}

/// There is room for entries that are not too many.
pub proof fn law_fits(data: Seq<(String, i32)>, res: bool, m: nat)
    requires
        gram::entries_fit(data, res),
        data.len() <= usize::MAX,
        forall|i: int| 0 <= i < data.len() ==> codec::encode_chars((#[trigger] data[i]).0@).len() < m,
        data.len() * m < 1073741824,
    ensures
        res,
{
    lemma_smaller(data, m, 0x4000_0000);
}

/// A database that was built can be opened.
pub proof fn law_built_opens(data: Seq<(String, i32)>, image: Vec<u8>, res: Result<GramDb, &str>)
    requires
        gram::database_built(data, Ok(image)),
        gram::database_read(image@, res),
    ensures
        res is Ok,
        res matches Ok(db) ==> 0 < db.trie.units().len() <= u32::MAX,
{
    let darts = gram::darts_of(image@);
    laws::law_image_opens(image@, darts);
}

/// A lookup in a database that was built gives values of entries, the one with the shortest key
/// first: an entry whose key consists of the context and some characters of the word, at least
/// one, is found, with the length of these in bytes. Of entries whose keys have the same bytes
/// the first counts.
pub proof fn law_built_lookup(
    data: Seq<(String, i32)>,
    image: Vec<u8>,
    db: GramDb,
    context: Seq<char>,
    word: Seq<char>,
    before: Seq<Match>,
    after: Seq<Match>,
    res: usize,
    i: int,
    m: int,
)
    requires
        gram::database_built(data, Ok(image)),
        gram::database_read(image@, Ok(db)),
        gram::looked_up(db.trie.units(), context, word, before, after, res),
        0 <= i < data.len(),
        0 < m <= word.len(),
    ensures
        forall|x: int, y: int|
            0 <= x < y < res && y < after.len() ==> (#[trigger] after[x]).length < (#[trigger] after[y]).length,
        data[i].0@ == context + word.take(m) && res <= after.len() && (forall|j: int|
            0 <= j < i ==> codec::encode_chars((#[trigger] data[j]).0@) != codec::encode_chars(data[i].0@))
            ==> exists|x: int|
            0 <= x < res && (#[trigger] after[x]).value == data[i].1 && after[x].length == codec::encode_chars(
                word.take(m),
            ).len(),
{
    let darts = gram::darts_of(image@);
    let a = db.trie.units();
    let keys = gram::encoded(data);
    let vals = gram::scaled(data);
    let d = words::dict_of(keys, vals);
    let c = codec::encode_chars(context);
    let w = codec::encode_chars(word);
    laws::law_image_opens(image@, darts);
    laws::law_lookup_matches(a, d, context, word);
    let found = gram::lookup_matches(a, context, word);
    assert forall|x: int, y: int| 0 <= x < y < res && y < after.len() implies (#[trigger] after[x]).length < (
    #[trigger] after[y]).length by {
        assert(found[x].1 < found[y].1);
    }
    if data[i].0@ == context + word.take(m) && res <= after.len() && (forall|j: int|
        0 <= j < i ==> codec::encode_chars((#[trigger] data[j]).0@) != codec::encode_chars(data[i].0@)) {
        let head = word.take(m);
        assert(word =~= head + word.skip(m));
        codec::lemma_encode_concat(head, word.skip(m));
        codec::lemma_encode_concat(context, head);
        codec::law_encode_empty(head);
        let n = codec::encode_chars(head).len() as int;
        assert(w.take(n) =~= codec::encode_chars(head));
        assert(keys[i] == c + w.take(n));
        assert forall|j: int| 0 <= j < i implies #[trigger] keys[j] != keys[i] by {
            assert(codec::encode_chars(data[j].0@) != codec::encode_chars(data[i].0@));
        }
        words::lemma_first_at(keys, vals, keys.len() as int, i);
        assert(d(c + w.take(n)) == Some(data[i].1));
        assert(found.contains((data[i].1, n)));
        let x = choose|x: int| 0 <= x < found.len() && found[x] == (data[i].1, n);
        assert(after[x].value == data[i].1);
    }
}

/// Everything that a lookup in a database that was built finds is an entry whose key has the
/// bytes of the context and the first bytes of the word, as many as is said.
pub proof fn law_built_found(
    data: Seq<(String, i32)>,
    image: Vec<u8>,
    db: GramDb,
    context: Seq<char>,
    word: Seq<char>,
    before: Seq<Match>,
    after: Seq<Match>,
    res: usize,
    x: int,
)
    requires
        gram::database_built(data, Ok(image)),
        gram::database_read(image@, Ok(db)),
        gram::looked_up(db.trie.units(), context, word, before, after, res),
        0 <= x < res,
        x < after.len(),
    ensures
        0 < after[x].length <= codec::encode_chars(word).len(),
        exists|i: int|
            0 <= i < data.len() && (#[trigger] data[i]).1 == after[x].value && codec::encode_chars(data[i].0@)
                == codec::encode_chars(context) + codec::encode_chars(word).take(after[x].length as int),
{
    let darts = gram::darts_of(image@);
    let a = db.trie.units();
    let keys = gram::encoded(data);
    let vals = gram::scaled(data);
    let c = codec::encode_chars(context);
    let w = codec::encode_chars(word);
    laws::law_image_opens(image@, darts);
    laws::law_lookup_matches(a, words::dict_of(keys, vals), context, word);
    let found = gram::lookup_matches(a, context, word);
    let (v, n) = found[x];
    assert(found.contains((v, n)));
    assert(after[x].value == v && after[x].length == n);
    let i = words::lemma_first_occurs(keys, vals, keys.len() as int, c + w.take(n));
    assert(data[i].1 == after[x].value);
}

/// The list of a database that was built holds the bytes of the key of each entry with its
/// value, and nothing else. Of entries whose keys have the same bytes the first counts.
pub proof fn law_built_listing(
    data: Seq<(String, i32)>,
    image: Vec<u8>,
    db: GramDb,
    list: Seq<(Seq<u8>, i32)>,
    k: Seq<u8>,
    v: i32,
)
    requires
        gram::database_built(data, Ok(image)),
        gram::database_read(image@, Ok(db)),
        array::listed(db.trie.units(), list),
    ensures
        forall|i: int, j: int|
            #![trigger list[i], list[j]]
            0 <= i < j < list.len() ==> words::less(list[i].0, list[j].0),
        list.contains((k, v)) <==> exists|i: int|
            0 <= i < data.len() && codec::encode_chars((#[trigger] data[i]).0@) == k && data[i].1 == v && forall|j: int|
                0 <= j < i ==> codec::encode_chars((#[trigger] data[j]).0@) != k,
{
    let darts = gram::darts_of(image@);
    let a = db.trie.units();
    let keys = gram::encoded(data);
    let vals = gram::scaled(data);
    let n = keys.len() as int;
    laws::law_image_opens(image@, darts);
    laws::lemma_listing(a, keys, vals);
    assert(array::entry(a, 0, k) == words::first_value(keys, vals, n, k));
    if list.contains((k, v)) {
        let i = words::lemma_first_occurs(keys, vals, n, k);
        assert(codec::encode_chars(data[i].0@) == k);
        assert forall|j: int| 0 <= j < i implies codec::encode_chars((#[trigger] data[j]).0@) != k by {
            assert(keys[j] != k);
        }
    }
    if exists|i: int|
        0 <= i < data.len() && codec::encode_chars((#[trigger] data[i]).0@) == k && data[i].1 == v && forall|j: int|
            0 <= j < i ==> codec::encode_chars((#[trigger] data[j]).0@) != k {
        let i = choose|i: int|
            0 <= i < data.len() && codec::encode_chars((#[trigger] data[i]).0@) == k && data[i].1 == v && forall|j: int|
                0 <= j < i ==> codec::encode_chars((#[trigger] data[j]).0@) != k;
        assert(keys[i] == k);
        assert forall|j: int| 0 <= j < i implies #[trigger] keys[j] != keys[i] by {
            assert(codec::encode_chars(data[j].0@) != k);
        }
        words::lemma_first_at(keys, vals, n, i);
    }
}

/// Who asks to hear of the progress of a build is called once for each key and once more, with
/// the number of calls so far and their total number.
pub proof fn law_progress<F: Fn(usize, usize)>(
    p: Callback<F>,
    keys: Seq<&[u8]>,
    values: Option<&[i32]>,
    data: Seq<(String, i32)>,
    q: Callback<F>,
)
    ensures
        builder::build_told(p, keys, values, true, q) ==> q.func == p.func && q.calls@ == p.calls@ + Seq::new(
            keys.len() + 1,
            |i: int| ((i + 1) as usize, (keys.len() + 1) as usize),
        ),
        gram::database_told(p, data, true, q) ==> q.func == p.func && q.calls@ == p.calls@ + Seq::new(
            data.len() + 1,
            |i: int| ((i + 1) as usize, (data.len() + 1) as usize),
        ),
{
    progress::law_calls(p, (keys.len() + 1) as int, (keys.len() + 1) as int);
    progress::law_calls(p, (data.len() + 1) as int, (data.len() + 1) as int);
}

/// The order of some keys names each of them once, and ascends; equal keys keep their order.
pub proof fn law_order(keys: Seq<Vec<u8>>, order: Seq<usize>)
    requires
        sort::is_order(sort::views(keys), order, 0, keys.len() as int),
        keys.len() <= usize::MAX,
    ensures
        order.len() == keys.len(),
        forall|i: int| 0 <= i < order.len() ==> #[trigger] order[i] < keys.len(),
        forall|i: int, j: int| 0 <= i < j < order.len() ==> #[trigger] order[i] != #[trigger] order[j],
        forall|i: int, j: int|
            #![trigger order[i], order[j]]
            0 <= i < j < order.len() ==> !words::less(keys[order[j] as int]@, keys[order[i] as int]@) && (
            keys[order[i] as int]@ == keys[order[j] as int]@ ==> order[i] < order[j]),
{
    let ks = sort::views(keys);
    assert forall|i: int, j: int|
        #![trigger order[i], order[j]]
        0 <= i < j < order.len() implies !words::less(keys[order[j] as int]@, keys[order[i] as int]@) && (
    keys[order[i] as int]@ == keys[order[j] as int]@ ==> order[i] < order[j]) && order[i] != order[j] by {
        let (x, y) = (order[i] as int, order[j] as int);
        assert(sort::precedes(ks, x, y));
        sort::lemma_less_irreflexive(ks[x], ks[y]);
        sort::lemma_less_irreflexive(ks[y], ks[x]);
    }
}

/// Entries are added behind those that are there, in their order, and entries that are added in
/// two parts are added as a whole.
pub proof fn law_extended(
    before: Seq<(String, i32)>,
    more: Seq<(String, i32)>,
    after: Seq<(String, i32)>,
    most: Seq<(String, i32)>,
    last: Seq<(String, i32)>,
)
    requires
        gram::extended(before, more, after),
        gram::extended(after, most, last),
    ensures
        after.len() == before.len() + more.len(),
        forall|i: int| 0 <= i < before.len() ==> #[trigger] after[i] == before[i],
        forall|i: int| before.len() <= i < after.len() ==> #[trigger] after[i] == more[i - before.len()],
        gram::extended(before, more + most, last),
{
    assert(last =~= before + (more + most));
}

/// The array in a database is what a build of the sorted entries gives, and there is a database
/// exactly if there is such an array.
#[verifier::rlimit(30)]
pub proof fn law_build_sorted(
    data: Seq<(String, i32)>,
    res: Result<Vec<u8>, &str>,
    order: Seq<usize>,
    keys: Seq<&[u8]>,
    values: &[i32],
    built: Result<Vec<u8>, BuildError>,
)
    requires
        0 < data.len() <= usize::MAX,
        gram::database_built(data, res),
        sort::is_order(gram::encoded(data), order, 0, data.len() as int),
        keys.len() == data.len(),
        values@.len() == data.len(),
        forall|i: int| 0 <= i < keys.len() ==> (#[trigger] keys[i])@ == codec::encode_chars(data[order[i] as int].0@),
        forall|i: int| 0 <= i < keys.len() ==> #[trigger] values@[i] == data[order[i] as int].1,
        builder::build_outcome(keys, Some(values), built),
    ensures
        res is Ok <==> built is Ok,
        res matches Ok(image) ==> (built matches Ok(darts) && image@.subrange(44, image@.len() - 980) == darts@),
{
    let enc = gram::encoded(data);
    let seqs = keyset::key_seqs(keys);
    sort::lemma_one_order(enc, order);
    assert(seqs =~= gram::sorted_keys(data)) by {
        assert forall|i: int| 0 <= i < keys.len() implies seqs[i] == gram::sorted_keys(data)[i] by {
            assert(keys[i]@ == codec::encode_chars(data[order[i] as int].0@));
        }
    }
    assert(values@ =~= gram::sorted_values(data));
    gram::lemma_sorted_entries(data, order);
    laws::law_order_ascends(enc, order);
    laws::law_sequence_accepted(seqs, values@);
    if let Ok(image) = res {
        let darts = gram::darts_of(image@);
        assert(bytes::words(darts).len() * 4 == darts.len());
        if let Ok(d) = built {
            bytes::lemma_same_words(darts, d@);
        }
    }
}

/// Who asks to hear of the progress of a database that cannot be built is called once for each
/// entry that comes, in the order of the bytes of the keys, before the first whose key is empty
/// or whose value is negative; and not at all if there are no entries.
#[verifier::rlimit(30)]
pub proof fn law_refused_progress<F: Fn(usize, usize)>(
    p: Callback<F>,
    data: Seq<(String, i32)>,
    q: Callback<F>,
    order: Seq<usize>,
    i: int,
)
    requires
        data.len() < usize::MAX,
        gram::database_told(p, data, false, q),
        sort::is_order(gram::encoded(data), order, 0, data.len() as int),
        0 <= i < data.len(),
        forall|j: int| 0 <= j < i ==> data[#[trigger] order[j] as int].0@.len() > 0 && data[order[j] as int].1 >= 0,
        data[order[i] as int].0@.len() == 0 || data[order[i] as int].1 < 0,
    ensures
        q.func == p.func,
        q.calls@ == p.calls@ + Seq::new(i as nat, |x: int| ((x + 1) as usize, (data.len() + 1) as usize)),
{
    let enc = gram::encoded(data);
    let n = data.len() as int;
    let keys = gram::sorted_keys(data);
    let values = gram::sorted_values(data);
    sort::lemma_one_order(enc, order);
    gram::lemma_sorted_entries(data, order);
    laws::law_order_ascends(enc, order);
    assert forall|j: int| 0 <= j < n implies (#[trigger] keys[j]).len() == codec::encode_chars(
        data[order[j] as int].0@,
    ).len() && (keys[j].len() > 0 <==> data[order[j] as int].0@.len() > 0) && values[j] == data[order[j] as int].1 by {
        codec::law_encode_empty(data[order[j] as int].0@);
    }
    assert forall|j: int| 0 <= j < i implies !(#[trigger] keys[j]).contains(0) && keys[j].len() > 0 && values[j]
        >= 0 by {
        let x = order[j];
    }
    refusals::lemma_good(keys, values, i);
    assert(keys[i].len() == 0 || values[i] < 0);
    assert(words::sequence_error(keys, values, i + 1) is Some);
    words::lemma_accepted(keys, values, i, n);
    words::lemma_error_stays(keys, values, i + 1, n);
    progress::law_calls(p, i, n + 1);
}

/// Nobody is told of a database without entries.
pub proof fn law_empty_progress<F: Fn(usize, usize)>(p: Callback<F>, data: Seq<(String, i32)>, q: Callback<F>)
    requires
        gram::database_told(p, data, false, q),
        data.len() == 0,
    ensures
        q == p,
{
}

} // verus!
