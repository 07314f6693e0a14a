//! The on-disk store a fetched image lands in, content-addressed by its URL.
//!
//! A cache entry's name is 32 lower-case hex digits and nothing else — not a
//! sanitised URL, not a path segment with the slashes taken out. A name drawn
//! from `0-9a-f` cannot hold a `/`, a `..` or a NUL, so joining it onto the
//! cache directory cannot leave the cache directory, whatever URL it came
//! from; [`law_a_cache_path_stays_in_the_cache_directory`] is that argument,
//! checked.
//!
//! The key is FNV-1a/128 over the URL's bytes: stable across releases, which
//! a key that must outlive the compiler that wrote it needs, and not
//! cryptographic, which it is not claimed to be.
//!
//! Eviction keeps the directory within a byte cap, least-recently-used
//! first, and only ever offers up files this cache made.

use vstd::prelude::*;
use vstd::utf8::*;
use crate::path::{components, file_name, parent_comps, join, join_path, single_name, slash, dot, dotdot, lemma_join_single, Comp};
use crate::text::{bytes_of, push_char};

verus! {

/// The FNV-1a 128-bit offset basis.
pub const FNV_OFFSET_BASIS: u128 = 144066263297769815596495629667062367629;

/// The FNV-1a 128-bit prime.
pub const FNV_PRIME: u128 = 309485009821345068724781371;

/// How many bytes of fetched images are kept on disk.
pub const DEFAULT_CACHE_BYTES: u64 = 128 * 1024 * 1024;

/// How many hex digits a key has.
pub const KEY_DIGITS: usize = 32;

/// One FNV-1a step: fold in `b`, then multiply, wrapping at 2^128.
pub open spec fn fnv_step(h: u128, b: u8) -> u128 {
    vstd::wrapping::u128_specs::wrapping_mul(h ^ (b as u128), FNV_PRIME)
}

/// FNV-1a/128 of `bytes`.
pub open spec fn fnv(bytes: Seq<u8>) -> u128
    decreases bytes.len(),
{
    if bytes.len() == 0 {
        FNV_OFFSET_BASIS
    } else {
        fnv_step(fnv(bytes.drop_last()), bytes.last())
    }
}

/// The lower-case hex digit for `d`.
pub open spec fn hex_char(d: nat) -> char {
    if d == 0 { '0' }
    else if d == 1 { '1' }
    else if d == 2 { '2' }
    else if d == 3 { '3' }
    else if d == 4 { '4' }
    else if d == 5 { '5' }
    else if d == 6 { '6' }
    else if d == 7 { '7' }
    else if d == 8 { '8' }
    else if d == 9 { '9' }
    else if d == 10 { 'a' }
    else if d == 11 { 'b' }
    else if d == 12 { 'c' }
    else if d == 13 { 'd' }
    else if d == 14 { 'e' }
    else { 'f' }
}

/// The last `n` hex digits of `h`, most significant first, zero-padded.
pub open spec fn hex_digits(h: nat, n: nat) -> Seq<char>
    decreases n,
{
    if n == 0 {
        Seq::empty()
    } else {
        hex_digits(h / 16, (n - 1) as nat).push(hex_char(h % 16))
    }
}

/// A lower-case hex digit.
pub open spec fn is_lower_hex(c: char) -> bool {
    ('0' <= c && c <= '9') || ('a' <= c && c <= 'f')
}

/// `url`'s cache key: FNV-1a/128 of its bytes, as 32 lower-case hex digits.
pub open spec fn key_spec(url: Seq<char>) -> Seq<char> {
    hex_digits(fnv(encode_utf8(url)) as nat, KEY_DIGITS as nat)
}

proof fn lemma_hex_digits_shape(h: nat, n: nat)
    ensures
        hex_digits(h, n).len() == n,
        forall|i: int| 0 <= i < n ==> is_lower_hex(#[trigger] hex_digits(h, n)[i]),
    decreases n,
{
    if n > 0 {
        lemma_hex_digits_shape(h / 16, (n - 1) as nat);
        let d = h % 16;
        assert(is_lower_hex(hex_char(d)));
    }
}

fn hex_char_of(d: u128) -> (c: char)
    requires
        d < 16,
    ensures
        c == hex_char(d as nat),
{
    if d == 0 { '0' }
    else if d == 1 { '1' }
    else if d == 2 { '2' }
    else if d == 3 { '3' }
    else if d == 4 { '4' }
    else if d == 5 { '5' }
    else if d == 6 { '6' }
    else if d == 7 { '7' }
    else if d == 8 { '8' }
    else if d == 9 { '9' }
    else if d == 10 { 'a' }
    else if d == 11 { 'b' }
    else if d == 12 { 'c' }
    else if d == 13 { 'd' }
    else if d == 14 { 'e' }
    else { 'f' }
}

fn push_hex(out: &mut String, h: u128, n: usize)
    ensures
        final(out)@ == old(out)@ + hex_digits(h as nat, n as nat),
    decreases n,
{
    if n > 0 {
        push_hex(out, h / 16, n - 1);
        push_char(out, hex_char_of(h % 16));
    }
}

/// `url`'s cache key: FNV-1a/128 over its bytes, lower-case hex, always 32
/// characters. Taken over the bytes, so no decoding step can fail and tempt a
/// fallback to the URL's own text.
pub fn key(url: &str) -> (k: String)
    ensures
        k@ == key_spec(url@),
        k@.len() == KEY_DIGITS,
        forall|i: int| 0 <= i < k@.len() ==> is_lower_hex(#[trigger] k@[i]),
{
    let bytes = url.as_bytes();
    let mut hash: u128 = FNV_OFFSET_BASIS;
    let mut i: usize = 0;
    while i < bytes.len()
        invariant
            i <= bytes@.len(),
            bytes@ == encode_utf8(url@),
            hash == fnv(bytes@.take(i as int)),
        decreases bytes@.len() - i,
    {
        assert(bytes@.take(i + 1).drop_last() =~= bytes@.take(i as int));
        hash = (hash ^ (bytes[i] as u128)).wrapping_mul(FNV_PRIME);
        i = i + 1;
    }
    assert(bytes@.take(bytes@.len() as int) =~= bytes@);
    let mut k = String::new();
    push_hex(&mut k, hash, KEY_DIGITS);
    proof {
        assert(k@ =~= hex_digits(hash as nat, KEY_DIGITS as nat));
        lemma_hex_digits_shape(hash as nat, KEY_DIGITS as nat);
    }
    k
}

/// Whether a byte is a lower-case hex digit.
pub open spec fn is_lower_hex_byte(b: u8) -> bool {
    (0x30 <= b && b <= 0x39) || (0x61 <= b && b <= 0x66)
}

/// The index of the first `.` in `b`, among its first `n` bytes.
pub open spec fn first_dot(b: Seq<u8>, n: int) -> Option<int>
    decreases n,
{
    if n <= 0 {
        None
    } else {
        match first_dot(b, n - 1) {
            Some(k) => Some(k),
            None => if b[n - 1] == 0x2e { Some(n - 1) } else { None },
        }
    }
}

/// `.part`, the suffix of this cache's temporaries.
pub open spec fn part_suffix() -> Seq<u8> {
    seq![0x2eu8, 0x70u8, 0x61u8, 0x72u8, 0x74u8]
}

/// What precedes the first `.` of `b`: all of it when there is none.
pub open spec fn stem_of(b: Seq<u8>) -> Seq<u8> {
    match first_dot(b, b.len() as int) {
        Some(k) => b.take(k),
        None => b,
    }
}

/// Whether the file name with bytes `b` is one this cache created: a bare
/// 32-hex-digit key, or one of its `.part` temporaries.
pub open spec fn cache_name_spec(b: Seq<u8>) -> bool {
    &&& stem_of(b).len() == KEY_DIGITS
    &&& forall|i: int| 0 <= i < stem_of(b).len() ==> is_lower_hex_byte(#[trigger] stem_of(b)[i])
    &&& (first_dot(b, b.len() as int) is None || (b.len() >= 5 && b.skip(b.len() - 5) == part_suffix()))
}

proof fn lemma_first_dot_stays(b: Seq<u8>, m: int, n: int)
    requires
        0 <= m <= n,
        first_dot(b, m) is Some,
    ensures
        first_dot(b, n) == first_dot(b, m),
    decreases n - m,
{
    if n > m {
        lemma_first_dot_stays(b, m, n - 1);
    }
}

/// Whether `name` is a file this cache created: a bare 32-hex-digit key, or
/// one of its `.part` temporaries. Nothing else is ever evicted.
pub fn is_cache_name(name: &str) -> (r: bool)
    ensures
        r == cache_name_spec(encode_utf8(name@)),
{
    let b = name.as_bytes();
    let n = b.len();
    let mut stem_len: usize = 0;
    while stem_len < n && b[stem_len] != 0x2e
        invariant
            stem_len <= n == b@.len(),
            first_dot(b@, stem_len as int) is None,
        decreases n - stem_len,
    {
        stem_len = stem_len + 1;
    }
    let has_dot = stem_len < n;
    proof {
        if has_dot {
            assert(first_dot(b@, stem_len + 1) == Some(stem_len as int));
            lemma_first_dot_stays(b@, stem_len + 1, n as int);
        } else {
            assert(b@.take(n as int) =~= b@);
        }
    }
    if stem_len != KEY_DIGITS {
        return false;
    }
    let mut i: usize = 0;
    while i < stem_len
        invariant
            i <= stem_len <= n == b@.len(),
            has_dot == (stem_len < n),
            b@ == encode_utf8(name@),
            has_dot ==> first_dot(b@, n as int) == Some(stem_len as int),
            !has_dot ==> first_dot(b@, n as int) is None,
            forall|k: int| 0 <= k < i ==> is_lower_hex_byte(#[trigger] b@[k]),
        decreases stem_len - i,
    {
        let c = b[i];
        if !((0x30 <= c && c <= 0x39) || (0x61 <= c && c <= 0x66)) {
            proof {
                assert(stem_of(b@)[i as int] == c);
            }
            return false;
        }
        i = i + 1;
    }
    assert forall|k: int| 0 <= k < stem_of(b@).len() implies is_lower_hex_byte(#[trigger] stem_of(b@)[k]) by {
        assert(stem_of(b@)[k] == b@[k]);
    }
    if !has_dot {
        return true;
    }
    if n < 5 {
        return false;
    }
    let ends = b[n - 5] == 0x2e && b[n - 4] == 0x70 && b[n - 3] == 0x61 && b[n - 2] == 0x72 && b[n - 1] == 0x74;
    proof {
        if ends {
            assert(b@.skip(n - 5) =~= part_suffix());
        } else {
            assert(b@.skip(n - 5) != part_suffix()) by {
                if b@.skip(n - 5) == part_suffix() {
                    assert(b@.skip(n - 5)[0] == b@[n - 5]);
                    assert(b@.skip(n - 5)[1] == b@[n - 4]);
                    assert(b@.skip(n - 5)[2] == b@[n - 3]);
                    assert(b@.skip(n - 5)[3] == b@[n - 2]);
                    assert(b@.skip(n - 5)[4] == b@[n - 1]);
                }
            }
        }
    }
    ends
}

/// A content-addressed image cache rooted at one directory.
#[derive(Debug, Clone)]
pub struct Cache {
    dir: Vec<u8>,
    max_bytes: u64,
}

impl Cache {
    pub closed spec fn dir_spec(&self) -> Seq<u8> {
        self.dir@
    }

    pub closed spec fn max_bytes_spec(&self) -> u64 {
        self.max_bytes
    }

    /// A cache at an explicit directory, kept within `max_bytes`. Nothing is
    /// created until something is stored.
    pub fn at(dir: Vec<u8>, max_bytes: u64) -> (c: Cache)
        ensures
            c.dir_spec() == dir@,
            c.max_bytes_spec() == max_bytes,
    {
        Cache { dir, max_bytes }
    }

    /// The directory this cache lives in.
    pub fn dir(&self) -> (d: &[u8])
        ensures
            d@ == self.dir_spec(),
    {
        self.dir.as_slice()
    }

    /// The byte cap this cache is kept within.
    pub fn max_bytes(&self) -> (m: u64)
        ensures
            m == self.max_bytes_spec(),
    {
        self.max_bytes
    }

    /// Where `url`'s bytes would live. Says nothing about whether they do.
    pub fn path_for(&self, url: &str) -> (p: Vec<u8>)
        ensures
            p@ == join(self.dir_spec(), encode_utf8(key_spec(url@))),
    {
        let k = key(url);
        let kb = bytes_of(k.as_str());
        join_path(self.dir.as_slice(), kb.as_slice())
    }
}

/// Whatever the URL — traversal, escapes, NULs, newlines — the path it is
/// cached under is a direct child of the cache directory, named by 32
/// lower-case hex digits.
pub proof fn law_a_cache_path_stays_in_the_cache_directory(dir: Seq<u8>, url: Seq<char>)
    ensures
        components(join(dir, encode_utf8(key_spec(url)))) == components(dir).push(Comp::Normal(encode_utf8(key_spec(url)))),
        encode_utf8(key_spec(url)).len() == KEY_DIGITS,
        forall|i: int| 0 <= i < KEY_DIGITS ==> is_lower_hex_byte(#[trigger] encode_utf8(key_spec(url))[i]),
{
    let k = key_spec(url);
    lemma_hex_digits_shape(fnv(encode_utf8(url)) as nat, KEY_DIGITS as nat);
    assert(is_ascii_chars(k));
    is_ascii_chars_encode_utf8(k);
    let kb = encode_utf8(k);
    assert forall|i: int| 0 <= i < KEY_DIGITS implies is_lower_hex_byte(#[trigger] kb[i]) by {
        assert(is_lower_hex(k[i]));
        assert(k[i] as u8 == kb[i]);
    }
    assert(!kb.contains(slash())) by {
        if kb.contains(slash()) {
            let i = choose|i: int| 0 <= i < kb.len() && kb[i] == slash();
            assert(is_lower_hex_byte(kb[i]));
        }
    }
    assert(kb != seq![dot()]);
    assert(kb != dotdot());
    assert(single_name(kb));
    lemma_join_single(dir, kb);
}

/// Every path a cache hands out, for every URL, is its directory's child
/// named by the URL's key: its parent is the cache directory, and its file
/// name is the key — 32 lower-case hex digits.
pub proof fn law_every_cache_path_is_a_key_under_the_cache_directory(dir: Seq<u8>, url: Seq<char>)
    ensures
        ({
            let name = encode_utf8(key_spec(url));
            let p = join(dir, name);
            &&& parent_comps(p) == Some(components(dir))
            &&& file_name(p) == Some(name)
            &&& name.len() == KEY_DIGITS
            &&& forall|i: int| 0 <= i < KEY_DIGITS ==> is_lower_hex_byte(#[trigger] name[i])
        }),
{
    law_a_cache_path_stays_in_the_cache_directory(dir, url);
    let name = encode_utf8(key_spec(url));
    let cs = components(join(dir, name));
    assert(cs.drop_last() =~= components(dir));
}

// ------------------------------------------------------------ eviction

/// One directory entry as eviction sees it.
#[derive(Debug, Clone, PartialEq, Eq)]
pub struct CacheEntry {
    /// The entry's file name.
    pub name: String,
    /// Its full path.
    pub path: Vec<u8>,
    /// Whether it is a regular file.
    pub is_file: bool,
    /// When it was last used, in nanoseconds since the epoch; the epoch
    /// itself when that could not be read.
    pub modified: u128,
    /// Its size in bytes.
    pub len: u64,
}

/// Whether eviction may ever take `e`: a regular file with a name this cache
/// made.
pub open spec fn evictable(e: CacheEntry) -> bool {
    e.is_file && cache_name_spec(encode_utf8(e.name@))
}

/// [`evictable`], as a predicate to filter with.
pub open spec fn evictable_pred() -> spec_fn(CacheEntry) -> bool {
    |x: CacheEntry| evictable(x)
}

/// The real sum of the sizes in `s`.
pub open spec fn size_sum(s: Seq<CacheEntry>) -> nat
    decreases s.len(),
{
    if s.len() == 0 {
        0
    } else {
        size_sum(s.drop_last()) + s.last().len as nat
    }
}

/// `n` capped at `u64::MAX`, as saturating addition leaves a running total.
pub open spec fn saturated(n: nat) -> u64 {
    if n > u64::MAX { u64::MAX } else { n as u64 }
}

/// Whether `s` runs oldest use first.
pub open spec fn by_age(s: Seq<CacheEntry>) -> bool {
    forall|i: int, j: int| 0 <= i < j < s.len() ==> s[i].modified <= s[j].modified
}

/// Eviction in progress: the entries it may take, oldest use first, the
/// running total of the cache's size, and how far down the queue it is.
#[derive(Debug)]
pub struct Eviction {
    queue: Vec<CacheEntry>,
    next: usize,
    total: u64,
    max_bytes: u64,
}

impl Eviction {
    pub closed spec fn queue_spec(&self) -> Seq<CacheEntry> {
        self.queue@
    }

    pub closed spec fn next_spec(&self) -> nat {
        self.next as nat
    }

    pub closed spec fn total_spec(&self) -> u64 {
        self.total
    }

    pub closed spec fn max_spec(&self) -> u64 {
        self.max_bytes
    }

    /// Whether this eviction is one [`Eviction::plan`] and
    /// [`Eviction::record`] produce.
    pub closed spec fn wf(&self) -> bool {
        &&& self.next <= self.queue@.len()
        &&& forall|i: int| 0 <= i < self.queue@.len() ==> evictable(#[trigger] self.queue@[i])
    }

    /// Plans eviction over what a read of the cache directory `found`: only
    /// entries this cache made are candidates, oldest use first, and the
    /// total is their saturating sum.
    pub fn plan(found: Vec<CacheEntry>, max_bytes: u64) -> (e: Eviction)
        ensures
            e.wf(),
            e.next_spec() == 0,
            e.max_spec() == max_bytes,
            by_age(e.queue_spec()),
            e.queue_spec().to_multiset() == found@.filter(evictable_pred()).to_multiset(),
            e.total_spec() == saturated(size_sum(e.queue_spec())),
    {
        broadcast use vstd::seq_lib::group_to_multiset_ensures;
        let mut ours: Vec<CacheEntry> = Vec::new();
        let mut rest = found;
        let ghost all = rest@;
        let ghost taken: Seq<CacheEntry> = Seq::empty();
        // Drained from the back; the multiset of what is kept is what counts.
        while rest.len() > 0
            invariant
                all.filter(evictable_pred()).to_multiset()
                    == ours@.to_multiset().add(rest@.filter(evictable_pred()).to_multiset()),
                forall|i: int| 0 <= i < ours@.len() ==> evictable(#[trigger] ours@[i]),
                by_age(ours@),
            decreases rest@.len(),
        {
            let ghost before = rest@;
            let x = rest.pop().unwrap();
            proof {
                assert(before =~= rest@.push(x));
                reveal(Seq::filter);
                assert(before.drop_last() =~= rest@);
                assert(before.filter(evictable_pred()) == if evictable(x) {
                    rest@.filter(evictable_pred()).push(x)
                } else {
                    rest@.filter(evictable_pred())
                });
                vstd::seq_lib::to_multiset_build(rest@.filter(evictable_pred()), x);
            }
            let keep = x.is_file && is_cache_name(x.name.as_str());
            if keep {
                let mut k: usize = 0;
                while k < ours.len() && ours[k].modified <= x.modified
                    invariant
                        k <= ours@.len(),
                        forall|m: int| 0 <= m < k ==> (#[trigger] ours@[m]).modified <= x.modified,
                    decreases ours@.len() - k,
                {
                    k = k + 1;
                }
                let ghost old_ours = ours@;
                ours.insert(k, x);
                proof {
                    vstd::seq_lib::to_multiset_insert(old_ours, k as int, x);
                    assert forall|i: int, j: int| 0 <= i < j < ours@.len()
                        implies ours@[i].modified <= ours@[j].modified by {
                        if j < k {
                            assert(ours@[i] == old_ours[i] && ours@[j] == old_ours[j]);
                        } else if j == k {
                            assert(ours@[i] == old_ours[i]);
                        } else if i == k {
                            assert(ours@[j] == old_ours[j - 1]);
                        } else if i < k {
                            assert(ours@[i] == old_ours[i] && ours@[j] == old_ours[j - 1]);
                        } else {
                            assert(ours@[i] == old_ours[i - 1] && ours@[j] == old_ours[j - 1]);
                        }
                    }
                    assert forall|i: int| 0 <= i < ours@.len() implies evictable(#[trigger] ours@[i]) by {
                        if i < k {
                            assert(ours@[i] == old_ours[i]);
                        } else if i > k {
                            assert(ours@[i] == old_ours[i - 1]);
                        }
                    }
                }
            }
        }
        let mut total: u64 = 0;
        let mut i: usize = 0;
        while i < ours.len()
            invariant
                i <= ours@.len(),
                total == saturated(size_sum(ours@.take(i as int))),
            decreases ours@.len() - i,
        {
            assert(ours@.take(i + 1).drop_last() =~= ours@.take(i as int));
            let len = ours[i].len;
            total = if total > u64::MAX - len { u64::MAX } else { total + len };
            i = i + 1;
        }
        assert(ours@.take(ours@.len() as int) =~= ours@);
        Eviction { queue: ours, next: 0, total, max_bytes }
    }

    /// The next file to remove, or `None` once the cache is within its cap
    /// or nothing this cache made is left to take.
    pub fn next(&self) -> (r: Option<&CacheEntry>)
        requires
            self.wf(),
        ensures
            match r {
                Some(e) => self.total_spec() > self.max_spec() && self.next_spec() < self.queue_spec().len()
                    && *e == self.queue_spec()[self.next_spec() as int] && evictable(*e),
                None => self.total_spec() <= self.max_spec() || self.next_spec() == self.queue_spec().len(),
            },
    {
        if self.total <= self.max_bytes || self.next >= self.queue.len() {
            None
        } else {
            Some(&self.queue[self.next])
        }
    }

    /// Takes back whether the file [`Eviction::next`] offered was removed;
    /// only a removal that happened comes off the total.
    pub fn record(&mut self, removed: bool)
        requires
            old(self).wf(),
            old(self).next_spec() < old(self).queue_spec().len(),
        ensures
            final(self).wf(),
            final(self).queue_spec() == old(self).queue_spec(),
            final(self).max_spec() == old(self).max_spec(),
            final(self).next_spec() == old(self).next_spec() + 1,
            final(self).total_spec() == if removed {
                let len = old(self).queue_spec()[old(self).next_spec() as int].len;
                if old(self).total_spec() >= len { (old(self).total_spec() - len) as u64 } else { 0 }
            } else {
                old(self).total_spec()
            },
    {
        if removed {
            let len = self.queue[self.next].len;
            self.total = if self.total >= len { self.total - len } else { 0 };
        }
        let q = self.queue.len();
        assert(self.next < q);
        self.next = self.next + 1;
    }
}

} // verus!
