//! The keys and values of a build, and the errors of keys that are placed directly.

use vstd::prelude::*;
use crate::words;

verus! {

/// The keys as sequences of bytes.
pub open spec fn key_seqs(keys: Seq<&[u8]>) -> Seq<Seq<u8>> {
    Seq::new(keys.len(), |i: int| keys[i]@)
}

/// The values of `n` keys: those that are given, or else the positions of the keys.
pub open spec fn value_seq(values: Option<&[i32]>, n: nat) -> Seq<i32> {
    match values {
        Some(v) => v@,
        None => Seq::new(n, |i: int| i as i32),
    }
}

/// Keys with optional values.
pub struct Keyset<'a> {
    pub keys: &'a [&'a [u8]],
    pub values: Option<&'a [i32]>,
}

impl<'a> Keyset<'a> {
    /// The keys.
    pub open spec fn seqs(&self) -> Seq<Seq<u8>> {
        key_seqs(self.keys@)
    }

    /// The values.
    pub open spec fn vals(&self) -> Seq<i32> {
        value_seq(self.values, self.keys@.len())
    }

    /// There is a value for every key, and the keys can be counted.
    pub open spec fn wf(&self) -> bool {
        &&& self.keys@.len() < usize::MAX
        &&& self.keys@.len() <= self.vals().len()
    }

    /// The number of keys.
    pub fn num_keys(&self) -> (res: usize)
        ensures
            res == self.seqs().len(),
    {
        self.keys.len()
    }

    /// The key `id`.
    pub fn key(&self, id: usize) -> (res: &'a [u8])
        requires
            id < self.seqs().len(),
        ensures
            res@ == self.seqs()[id as int],
    {
        self.keys[id]
    }

    /// The byte at `depth` of the key `key_id`, or zero if the key is shorter.
    pub fn key_byte(&self, key_id: usize, depth: usize) -> (res: u8)
        requires
            key_id < self.seqs().len(),
        ensures
            res == byte_at(self.seqs(), key_id as int, depth as int),
            depth < self.keys@[key_id as int]@.len() ==> res == self.keys@[key_id as int]@[depth as int],
            depth >= self.keys@[key_id as int]@.len() ==> res == 0,
    {
        let key: &[u8] = self.keys[key_id];
        if depth < key.len() {
            key[depth]
        } else {
            0
        }
    }

    /// The length of the key `id`.
    pub fn key_len(&self, id: usize) -> (res: usize)
        requires
            id < self.seqs().len(),
        ensures
            res == self.seqs()[id as int].len(),
    {
        self.keys[id].len()
    }

    /// Whether values were given.
    pub fn has_values(&self) -> (res: bool)
        ensures
            res == (self.values is Some),
    {
        self.values.is_some()
    }

    /// The value of the key `id`.
    pub fn value(&self, id: usize) -> (res: i32)
        requires
            self.wf(),
            id < self.seqs().len(),
        ensures
            res == self.vals()[id as int],
            self.values matches Some(v) ==> res == v@[id as int],
            self.values is None && id <= i32::MAX ==> res == id,
    {
        match self.values {
            Some(v) => v[id],
            None => id as i32,
        }
    }
}

/// The byte at `depth` of the `i`th key, or zero if the key is shorter.
pub open spec fn byte_at(keys: Seq<Seq<u8>>, i: int, depth: int) -> u8 {
    if 0 <= depth < keys[i].len() {
        keys[i][depth]
    } else {
        0
    }
}

/// What is wrong with the `i`th key among those from `begin` on that agree on their first
/// `depth` bytes, if nothing is wrong with those before it.
pub open spec fn index_error(
    keys: Seq<Seq<u8>>,
    values: Seq<i32>,
    begin: int,
    i: int,
    depth: int,
) -> Option<Seq<char>> {
    let c = byte_at(keys, i, depth);
    if c == 0 && depth < keys[i].len() {
        Some("Failed to build double-array: invalid null character"@)
    } else if c == 0 && values[i] < 0 {
        Some("Failed to build double-array: negative value"@)
    } else if c == 0 && i > begin && byte_at(keys, begin, depth) == 0 && values[begin] != values[i] {
        Some("Failed to build double-array: inconsistent value for the same key"@)
    } else if i > begin && c < byte_at(keys, i - 1, depth) {
        Some("Failed to build double-array: wrong key order"@)
    } else {
        None
    }
}

/// The first error among the keys from `begin` up to `n`.
pub open spec fn scan_error(
    keys: Seq<Seq<u8>>,
    values: Seq<i32>,
    begin: int,
    n: int,
    depth: int,
) -> Option<Seq<char>>
    decreases n - begin,
{
    if n <= begin {
        None
    } else {
        match scan_error(keys, values, begin, n - 1, depth) {
            Some(e) => Some(e),
            None => index_error(keys, values, begin, n - 1, depth),
        }
    }
}

/// The end of the run of keys from `from` on that have the same byte at `depth`.
pub open spec fn run_end(keys: Seq<Seq<u8>>, from: int, i: int, end: int, depth: int) -> int
    decreases end - i,
{
    if i >= end || byte_at(keys, i, depth) != byte_at(keys, from, depth) {
        i
    } else {
        run_end(keys, from, i + 1, end, depth)
    }
}

/// The first error in the tree of the keys from `begin` to `end`, which agree on their
/// first `depth` bytes: one of these keys at this depth, or else one in the trees below,
/// in order. No key has more than `depth + height` bytes.
pub open spec fn tree_error(
    keys: Seq<Seq<u8>>,
    values: Seq<i32>,
    begin: int,
    end: int,
    depth: int,
    height: nat,
) -> Option<Seq<char>>
    decreases height, 1int, end - begin,
{
    match scan_error(keys, values, begin, end, depth) {
        Some(e) => Some(e),
        None => trees_error(keys, values, begin, end, depth, height),
    }
}

/// The first error in the trees below.
pub open spec fn trees_error(
    keys: Seq<Seq<u8>>,
    values: Seq<i32>,
    from: int,
    end: int,
    depth: int,
    height: nat,
) -> Option<Seq<char>>
    decreases height, 0int, end - from,
{
    if from >= end {
        None
    } else if byte_at(keys, from, depth) == 0 {
        trees_error(keys, values, from + 1, end, depth, height)
    } else if height == 0 {
        None
    } else {
        proof {
            lemma_run_end(keys, from, from + 1, end, depth);
        }
        let i = run_end(keys, from, from + 1, end, depth);
        match tree_error(keys, values, from, i, depth + 1, (height - 1) as nat) {
            Some(e) => Some(e),
            None => trees_error(keys, values, i, end, depth, height),
        }
    }
}

/// The longest length among the first `n` keys.
pub open spec fn max_len(keys: Seq<Seq<u8>>, n: int) -> nat
    decreases n,
{
    if n <= 0 {
        0
    } else if keys[n - 1].len() > max_len(keys, n - 1) {
        keys[n - 1].len()
    } else {
        max_len(keys, n - 1)
    }
}

/// The first error of keys that are placed directly.
pub open spec fn direct_error(keys: Seq<Seq<u8>>, values: Seq<i32>) -> Option<Seq<char>> {
    if keys.len() == 0 {
        None
    } else {
        tree_error(keys, values, 0, keys.len() as int, 0, max_len(keys, keys.len() as int))
    }
}

/// The first error of a build. Keys with values are inserted one after the other; keys
/// without values are placed directly.
pub open spec fn build_error(keys: Seq<Seq<u8>>, values: Option<&[i32]>) -> Option<Seq<char>> {
    match values {
        Some(v) => words::sequence_error(keys, v@, keys.len() as int),
        None => direct_error(keys, value_seq(None, keys.len())),
    }
}

/// No key is longer than the longest.
pub proof fn lemma_max_len(keys: Seq<Seq<u8>>, n: int, i: int)
    requires
        0 <= i < n <= keys.len(),
    ensures
        keys[i].len() <= max_len(keys, n),
    decreases n,
{
    if i < n - 1 {
        lemma_max_len(keys, n - 1, i);
    }
}

/// Where a scan finds nothing, no key on the way is wrong.
pub proof fn lemma_scan(keys: Seq<Seq<u8>>, values: Seq<i32>, begin: int, n: int, depth: int, i: int)
    requires
        scan_error(keys, values, begin, n, depth) is None,
        begin <= i < n,
    ensures
        index_error(keys, values, begin, i, depth) is None,
        scan_error(keys, values, begin, i, depth) is None,
    decreases n - begin,
{
    if i < n - 1 {
        lemma_scan(keys, values, begin, n - 1, depth, i);
    }
}

/// Once a scan finds an error, it is that error.
pub proof fn lemma_scan_stays(keys: Seq<Seq<u8>>, values: Seq<i32>, begin: int, m: int, n: int, depth: int)
    requires
        m <= n,
        scan_error(keys, values, begin, m, depth) is Some,
    ensures
        scan_error(keys, values, begin, n, depth) == scan_error(keys, values, begin, m, depth),
    decreases n - m,
{
    if m < n {
        lemma_scan_stays(keys, values, begin, m, n - 1, depth);
    }
}

/// After a scan that finds nothing, the bytes at this depth ascend.
pub proof fn lemma_scan_sorted(
    keys: Seq<Seq<u8>>,
    values: Seq<i32>,
    begin: int,
    n: int,
    depth: int,
    i: int,
    j: int,
)
    requires
        scan_error(keys, values, begin, n, depth) is None,
        begin <= i <= j < n,
    ensures
        byte_at(keys, i, depth) <= byte_at(keys, j, depth),
    decreases j - i,
{
    if i < j {
        lemma_scan_sorted(keys, values, begin, n, depth, i, j - 1);
        lemma_scan(keys, values, begin, n, depth, j);
    }
}

/// A run ends where the byte changes.
pub proof fn lemma_run_end(keys: Seq<Seq<u8>>, from: int, i: int, end: int, depth: int)
    requires
        from < i <= end,
        forall|j: int| from <= j < i ==> #[trigger] byte_at(keys, j, depth) == byte_at(keys, from, depth),
    ensures
        i <= run_end(keys, from, i, end, depth) <= end,
        forall|j: int|
            from <= j < run_end(keys, from, i, end, depth) ==> #[trigger] byte_at(keys, j, depth) == byte_at(
                keys,
                from,
                depth,
            ),
        run_end(keys, from, i, end, depth) < end ==> byte_at(keys, run_end(keys, from, i, end, depth), depth)
            != byte_at(keys, from, depth),
    decreases end - i,
{
    if i < end && byte_at(keys, i, depth) == byte_at(keys, from, depth) {
        lemma_run_end(keys, from, i + 1, end, depth);
    }
}

} // verus!
