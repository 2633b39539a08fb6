//! Where the cache of an index lives, how its data is framed on disk, and whether cached
//! files changed.
//!
//! Writing and reading the cache is I/O, and turning index data into JSON is serde's work;
//! both happen outside the library. The library frames the JSON bytes and checks them on
//! the way back.

use vstd::prelude::*;

use crate::paths::{join, join_path};
use crate::text::{decimal, push_chars, push_decimal, str_eq, string_from_chars};

verus! {

/// The name of the cache directory inside a repository.
pub open spec fn cache_dir_name() -> Seq<char> {
    seq!['.', 'c', 'o', 'd', 'e', 's', 'i', 'f', 't']
}

/// Persistent storage manager.
#[derive(Debug)]
pub struct Storage {
    cache_dir: String,
}

impl Storage {
    pub closed spec fn dir(&self) -> Seq<char> {
        self.cache_dir@
    }

    /// Create storage manager for a repository: its cache is `.codesift` inside it.
    pub fn new(repo_path: &str) -> (s: Self)
        ensures
            s.dir() == join(repo_path@, cache_dir_name()),
    {
        let name = ".codesift";
        proof {
            reveal_strlit(".codesift");
        }
        Storage { cache_dir: join_path(repo_path, name) }
    }

    /// Get the cache directory path.
    pub fn cache_dir(&self) -> (r: &str)
        ensures
            r@ == self.dir(),
    {
        self.cache_dir.as_str()
    }
}

/// Each path occurs once.
pub open spec fn distinct_paths(v: Seq<(String, (u64, u64))>) -> bool {
    forall|i: int, j: int| 0 <= i < j < v.len() ==> (#[trigger] v[i]).0@ != (#[trigger] v[j]).0@
}

/// `current` holds the path with the same hash and modification time.
pub open spec fn holds_same(current: Seq<(String, (u64, u64))>, e: (String, (u64, u64))) -> bool {
    exists|j: int| 0 <= j < current.len() && (#[trigger] current[j]).0@ == e.0@ && current[j].1 == e.1
}

/// Cached files changed when a cached path is gone or has another hash or time, or when
/// the number of files differs.
pub open spec fn changed(cached: Seq<(String, (u64, u64))>, current: Seq<(String, (u64, u64))>) -> bool {
    (exists|i: int| 0 <= i < cached.len() && !holds_same(current, #[trigger] cached[i])) || cached.len()
        != current.len()
}

/// Check if any cached files have changed: the tables give each path's (hash, modification
/// time), each path once.
pub fn files_changed(cached: &[(String, (u64, u64))], current: &[(String, (u64, u64))]) -> (b: bool)
    requires
        distinct_paths(cached@),
        distinct_paths(current@),
    ensures
        b == changed(cached@, current@),
{
    let mut i: usize = 0;
    while i < cached.len()
        invariant
            i <= cached@.len(),
            forall|k: int| 0 <= k < i ==> holds_same(current@, #[trigger] cached@[k]),
        decreases cached@.len() - i,
    {
        let mut j: usize = 0;
        let mut found = false;
        while j < current.len()
            invariant
                j <= current@.len(),
                i < cached@.len(),
                found == exists|m: int| 0 <= m < j && (#[trigger] current@[m]).0@ == cached@[i as int].0@ && current@[m].1 == cached@[i as int].1,
            decreases current@.len() - j,
        {
            if str_eq(current[j].0.as_str(), cached[i].0.as_str()) && current[j].1.0 == cached[i].1.0
                && current[j].1.1 == cached[i].1.1 {
                found = true;
            }
            j += 1;
        }
        if !found {
            proof {
                assert(!holds_same(current@, cached@[i as int]));
            }
            return true;
        }
        i += 1;
    }
    proof {
        assert(!exists|k: int| 0 <= k < cached@.len() && !holds_same(current@, #[trigger] cached@[k]));
    }
    cached.len() != current.len()
}


// ---------------------------------------------------------------------------
// Framing.

/// The cache format version this library writes and reads.
pub const CACHE_VERSION: u32 = 1;

/// The first `k` little-endian bytes of `n`.
pub open spec fn le_bytes(n: nat, k: nat) -> Seq<u8>
    decreases k,
{
    if k == 0 {
        seq![]
    } else {
        seq![(n % 256) as u8] + le_bytes(n / 256, (k - 1) as nat)
    }
}

/// The number that bytes give read in little-endian order.
pub open spec fn le_value(b: Seq<u8>) -> nat
    decreases b.len(),
{
    if b.len() == 0 {
        0
    } else {
        b[0] as nat + 256 * le_value(b.drop_first())
    }
}

/// 256 to the power `k`.
pub open spec fn byte_bound(k: nat) -> nat
    decreases k,
{
    if k == 0 {
        1
    } else {
        256 * byte_bound((k - 1) as nat)
    }
}

/// The stored form of a payload: its length in eight little-endian bytes, then the payload.
pub open spec fn framed(payload: Seq<u8>) -> Seq<u8> {
    le_bytes(payload.len(), 8) + payload
}

/// The payload a stored form holds: as many bytes after the first eight as those eight
/// give in little-endian order (what follows is ignored); `None` where fewer are there.
pub open spec fn unframed(data: Seq<u8>) -> Option<Seq<u8>> {
    if data.len() < 8 {
        None
    } else {
        let n = le_value(data.subrange(0, 8));
        if data.len() - 8 < n {
            None
        } else {
            Some(data.subrange(8, 8 + n as int))
        }
    }
}

pub open spec fn opt_bytes(o: Option<Vec<u8>>) -> Option<Seq<u8>> {
    match o {
        Some(v) => Some(v@),
        None => None,
    }
}

/// Frames a payload for the cache: its length as eight little-endian bytes, then the bytes.
pub fn frame_data(payload: &[u8]) -> (r: Vec<u8>)
    ensures
        r@ == framed(payload@),
{
    let mut out: Vec<u8> = Vec::new();
    let len = payload.len();
    let mut v: u64 = len as u64;
    let mut i: usize = 0;
    while i < 8
        invariant
            i <= 8,
            out@ + le_bytes(v as nat, (8 - i) as nat) == le_bytes(payload@.len(), 8),
        decreases 8 - i,
    {
        let ghost before = out@;
        out.push((v % 256) as u8);
        proof {
            assert(le_bytes(v as nat, (8 - i) as nat) == seq![(v % 256) as u8] + le_bytes((v / 256) as nat, (8 - i - 1) as nat));
            assert(out@ + le_bytes((v / 256) as nat, (8 - i - 1) as nat) =~= before + le_bytes(v as nat, (8 - i) as nat));
        }
        v = v / 256;
        i += 1;
    }
    let ghost head = out@;
    let mut k: usize = 0;
    while k < payload.len()
        invariant
            k <= payload@.len(),
            out@ == head + payload@.take(k as int),
        decreases payload@.len() - k,
    {
        out.push(payload[k]);
        k += 1;
        proof {
            assert(out@ =~= head + payload@.take(k as int));
        }
    }
    proof {
        assert(head =~= le_bytes(payload@.len(), 8));
        assert(payload@.take(payload@.len() as int) =~= payload@);
    }
    out
}

/// Reads a framed payload back; `None` where the data ends before the length it gives.
pub fn unframe_data(data: &[u8]) -> (r: Option<Vec<u8>>)
    ensures
        opt_bytes(r) == unframed(data@),
{
    if data.len() < 8 {
        return None;
    }
    let mut v: u64 = 0;
    let mut i: usize = 8;
    proof {
        assert(data@.subrange(8, 8).len() == 0);
        assert(le_value(data@.subrange(8, 8)) == 0);
        reveal_with_fuel(byte_bound, 9);
        assert(byte_bound(8) == 0x1_0000_0000_0000_0000);
    }
    while i > 0
        invariant
            i <= 8,
            8 <= data@.len(),
            v == le_value(data@.subrange(i as int, 8)),
            v < byte_bound((8 - i) as nat),
            byte_bound(8) == 0x1_0000_0000_0000_0000,
        decreases i,
    {
        proof {
            lemma_byte_bound_grows((8 - i) as nat, 7);
            assert(data@.subrange(i - 1, 8).drop_first() =~= data@.subrange(i as int, 8));
            assert(data@.subrange(i - 1, 8)[0] == data@[i - 1]);
        }
        v = v * 256 + data[i - 1] as u64;
        i -= 1;
    }
    let len = data.len() - 8;
    if (len as u64) < v {
        return None;
    }
    let n = v as usize;
    let total = data.len();
    let mut out: Vec<u8> = Vec::new();
    let mut k: usize = 0;
    while k < n
        invariant
            k <= n,
            total == data@.len(),
            8 + n <= total,
            out@ == data@.subrange(8, 8 + k),
        decreases n - k,
    {
        out.push(data[8 + k]);
        k += 1;
        proof {
            assert(out@ =~= data@.subrange(8, 8 + k));
        }
    }
    Some(out)
}

proof fn lemma_byte_bound_grows(a: nat, b: nat)
    requires
        a <= b,
    ensures
        byte_bound(a) <= byte_bound(b),
        byte_bound(a) >= 1,
    decreases b,
{
    if a < b {
        lemma_byte_bound_grows(a, (b - 1) as nat);
    } else if a > 0 {
        lemma_byte_bound_grows((a - 1) as nat, (a - 1) as nat);
    }
}

proof fn lemma_le_round_trip(n: nat, k: nat)
    requires
        n < byte_bound(k),
    ensures
        le_bytes(n, k).len() == k,
        le_value(le_bytes(n, k)) == n,
    decreases k,
{
    if k > 0 {
        lemma_le_round_trip(n / 256, (k - 1) as nat);
        assert(le_bytes(n, k).drop_first() =~= le_bytes(n / 256, (k - 1) as nat));
    }
}

/// The error a cache of another format version gives: `None` for this library's version.
pub fn version_mismatch(found: u32) -> (r: Option<String>)
    ensures
        found == CACHE_VERSION ==> r is None,
        found != CACHE_VERSION ==> (r matches Some(m) && m@ == mismatch_message(found)),
{
    if found == CACHE_VERSION {
        return None;
    }
    let mut v: Vec<char> = Vec::new();
    let head = ['C', 'a', 'c', 'h', 'e', ' ', 'v', 'e', 'r', 's', 'i', 'o', 'n', ' ', 'm', 'i', 's', 'm', 'a', 't', 'c', 'h', ':', ' ', 'e', 'x', 'p', 'e', 'c', 't', 'e', 'd', ' '];
    push_chars(&mut v, &head);
    push_decimal(&mut v, CACHE_VERSION as u64);
    push_chars(&mut v, &[',', ' ', 'g', 'o', 't', ' ']);
    push_decimal(&mut v, found as u64);
    proof {
        assert(v@ =~= mismatch_message(found));
    }
    Some(string_from_chars(v.as_slice()))
}

/// "Cache version mismatch: expected 1, got N".
pub open spec fn mismatch_message(found: u32) -> Seq<char> {
    seq!['C', 'a', 'c', 'h', 'e', ' ', 'v', 'e', 'r', 's', 'i', 'o', 'n', ' ', 'm', 'i', 's', 'm', 'a', 't', 'c', 'h', ':', ' ', 'e', 'x', 'p', 'e', 'c', 't', 'e', 'd', ' ']
        + decimal(CACHE_VERSION as nat) + seq![',', ' ', 'g', 'o', 't', ' '] + decimal(found as nat)
}


// ---------------------------------------------------------------------------
// Laws.

/// Files compared with themselves have not changed.
pub proof fn same_files_unchanged(files: Seq<(String, (u64, u64))>)
    ensures
        !changed(files, files),
{
    assert forall|i: int| 0 <= i < files.len() implies holds_same(files, #[trigger] files[i]) by {
        assert(files[i].0@ == files[i].0@);
    }
}

/// A cached file that is gone, or whose hash or time differs, means the files changed.
pub proof fn altered_file_is_a_change(cached: Seq<(String, (u64, u64))>, current: Seq<(String, (u64, u64))>, i: int)
    requires
        0 <= i < cached.len(),
        forall|j: int| 0 <= j < current.len() ==> (#[trigger] current[j]).0@ == cached[i].0@ ==> current[j].1 != cached[i].1,
    ensures
        changed(cached, current),
{
    assert(!holds_same(current, cached[i]));
}


/// What is framed reads back unchanged.
pub proof fn framed_data_reads_back(payload: Seq<u8>)
    requires
        payload.len() <= u64::MAX,
    ensures
        unframed(framed(payload)) == Some(payload),
{
    reveal_with_fuel(byte_bound, 9);
    assert(byte_bound(8) == 0x1_0000_0000_0000_0000);
    lemma_le_round_trip(payload.len(), 8);
    let d = framed(payload);
    assert(d.subrange(0, 8) =~= le_bytes(payload.len(), 8));
    assert(d.subrange(8, 8 + payload.len() as int) =~= payload);
}

} // verus!
