//! File records, the sampler, grouping by size, and the reduction of a size
//! group to its duplicates.

use vstd::prelude::*;
use crate::hash::State;

verus! {

/// Width of one sample window.
pub const READSIZE: usize = 5;

/// Three windows of a file: head, middle and tail.
pub type Sample = [u8; 15];

// ---------------------------------------------------------------------------
// Sampler

/// The sample of a file with contents `c`: the whole file, zero-filled, when it is
/// shorter than three windows; else the first window, the window from
/// `(len - 5) / 2`, and the last window.
pub open spec fn sample_of(c: Seq<u8>) -> Seq<u8> {
    if c.len() < 15 {
        c + Seq::new((15 - c.len()) as nat, |i: int| 0u8)
    } else {
        let mid = (c.len() - 5) / 2;
        c.subrange(0, 5) + c.subrange(mid, mid + 5) + c.subrange(c.len() - 5, c.len() as int)
    }
}

/// Where the three windows of a file of `size` bytes start, or `None` when the
/// file is shorter than three windows and is read whole.
pub fn windows(size: u64) -> (r: Option<[u64; 3]>)
    ensures
        size < 15 ==> r is None,
        size >= 15 ==> r is Some && r->0@ == seq![0u64, ((size - 5) / 2) as u64, (size - 5) as u64],
{
    if size < 15 {
        None
    } else {
        let r = [0u64, (size - 5) / 2, size - 5];
        assert(r@ =~= seq![0u64, ((size - 5) / 2) as u64, (size - 5) as u64]);
        Some(r)
    }
}

/// The sample of contents held in memory.
pub fn sample(content: &[u8]) -> (r: Sample)
    ensures
        r@ == sample_of(content@),
{
    let mut r: Sample = [0u8; 15];
    let len = content.len();
    match windows(len as u64) {
        None => {
            let mut k: usize = 0;
            while k < len
                invariant
                    k <= len < 15,
                    len == content@.len(),
                    forall|i: int| 0 <= i < k ==> r@[i] == content@[i],
                    forall|i: int| k <= i < 15 ==> r@[i] == 0,
                decreases len - k,
            {
                r[k] = content[k];
                k += 1;
            }
            assert(r@ =~= sample_of(content@));
        },
        Some(w) => {
            let mut k: usize = 0;
            while k < 15
                invariant
                    k <= 15,
                    len == content@.len() >= 15,
                    w@ == seq![0u64, ((len - 5) / 2) as u64, (len - 5) as u64],
                    forall|i: int| 0 <= i < k ==> r@[i] == content@[w@[i / 5] + i % 5],
                decreases 15 - k,
            {
                r[k] = content[(w[k / 5] as usize) + k % 5];
                k += 1;
            }
            assert(r@ =~= sample_of(content@));
        },
    }
    r
}

// ---------------------------------------------------------------------------
// File records

/// A scanned file: its path and size, and its sample and digest once computed.
pub struct Item {
    path: String,
    size: u64,
    bytes: Option<Sample>,
    hash: Option<State>,
}

impl Item {
    pub closed spec fn path_view(&self) -> Seq<char> {
        self.path@
    }

    pub closed spec fn size_view(&self) -> u64 {
        self.size
    }

    /// The sample, once stored.
    pub closed spec fn sample_view(&self) -> Option<Seq<u8>> {
        match self.bytes {
            Some(b) => Some(b@),
            None => None,
        }
    }

    /// The digest, once stored.
    pub closed spec fn digest_view(&self) -> Option<Seq<u32>> {
        match self.hash {
            Some(h) => Some(h@),
            None => None,
        }
    }

    pub fn new(path: String, size: u64) -> (r: Self)
        ensures
            r.path_view() == path@,
            r.size_view() == size,
            r.sample_view() is None,
            r.digest_view() is None,
    {
        Item { path, size, bytes: None, hash: None }
    }

    pub fn path(&self) -> (r: &String)
        ensures
            r@ == self.path_view(),
    {
        &self.path
    }

    pub fn size(&self) -> (r: u64)
        ensures
            r == self.size_view(),
    {
        self.size
    }

    /// The stored sample, if any.
    pub fn bytes(&self) -> (r: Option<Sample>)
        ensures
            r is Some <==> self.sample_view() is Some,
            r is Some ==> self.sample_view() == Some(r->0@),
    {
        self.bytes
    }

    /// The stored digest, if any.
    pub fn hash(&self) -> (r: Option<State>)
        ensures
            r is Some <==> self.digest_view() is Some,
            r is Some ==> self.digest_view() == Some(r->0@),
    {
        self.hash
    }

    /// Stores the sample; one already stored is kept.
    pub fn set_bytes(&mut self, s: Sample)
        ensures
            final(self).sample_view() == (if old(self).sample_view() is Some {
                old(self).sample_view()
            } else {
                Some(s@)
            }),
            final(self).path_view() == old(self).path_view(),
            final(self).size_view() == old(self).size_view(),
            final(self).digest_view() == old(self).digest_view(),
    {
        if self.bytes.is_none() {
            self.bytes = Some(s);
        }
    }

    /// Stores the digest; one already stored is kept.
    pub fn set_hash(&mut self, h: State)
        ensures
            final(self).digest_view() == (if old(self).digest_view() is Some {
                old(self).digest_view()
            } else {
                Some(h@)
            }),
            final(self).path_view() == old(self).path_view(),
            final(self).size_view() == old(self).size_view(),
            final(self).sample_view() == old(self).sample_view(),
    {
        if self.hash.is_none() {
            self.hash = Some(h);
        }
    }
}

/// Two records at different paths whose samples and digests are both known and equal.
pub open spec fn same_content(a: Item, b: Item) -> bool {
    &&& a.path_view() != b.path_view()
    &&& a.sample_view() is Some
    &&& a.sample_view() == b.sample_view()
    &&& a.digest_view() is Some
    &&& a.digest_view() == b.digest_view()
}

fn equal_samples(a: &Sample, b: &Sample) -> (r: bool)
    ensures
        r == (a@ == b@),
{
    let mut k: usize = 0;
    while k < 15
        invariant
            k <= 15,
            forall|i: int| 0 <= i < k ==> a@[i] == b@[i],
        decreases 15 - k,
    {
        if a[k] != b[k] {
            return false;
        }
        k += 1;
    }
    assert(a@ =~= b@);
    true
}

fn equal_states(a: &State, b: &State) -> (r: bool)
    ensures
        r == (a@ == b@),
{
    let mut k: usize = 0;
    while k < 8
        invariant
            k <= 8,
            forall|i: int| 0 <= i < k ==> a@[i] == b@[i],
        decreases 8 - k,
    {
        if a[k] != b[k] {
            return false;
        }
        k += 1;
    }
    assert(a@ =~= b@);
    true
}

/// Whether the samples of `a` and `b` are both known and equal.
pub fn same_sample(a: &Item, b: &Item) -> (r: bool)
    ensures
        r == (a.sample_view() is Some && a.sample_view() == b.sample_view()),
{
    match (&a.bytes, &b.bytes) {
        (Some(x), Some(y)) => equal_samples(x, y),
        _ => false,
    }
}

/// Whether `a` and `b` are records of the same content at different paths.
pub fn is_same_content(a: &Item, b: &Item) -> (r: bool)
    ensures
        r == same_content(*a, *b),
{
    if a.path == b.path {
        return false;
    }
    if !same_sample(a, b) {
        return false;
    }
    match (&a.hash, &b.hash) {
        (Some(x), Some(y)) => equal_states(x, y),
        _ => false,
    }
}

// ---------------------------------------------------------------------------
// Reduction of one size group

/// Record `j` of a group repeats the path of an earlier record: the same file was
/// scanned twice. Such a record is neither a copy nor an original.
pub open spec fn repeats_path(items: Seq<Item>, j: int) -> bool {
    exists|i: int| 0 <= i < j && #[trigger] items[i].path_view() == items[j].path_view()
}

/// Record `j` of a group is a copy: an earlier record that is not itself a copy
/// has the same content, and neither repeats an earlier path.
pub open spec fn is_copy(items: Seq<Item>, j: int) -> bool
    decreases j,
{
    exists|i: int| 0 <= i < j < items.len() && !is_copy(items, i) && !repeats_path(items, i)
        && !repeats_path(items, j) && #[trigger] same_content(items[i], items[j])
}

/// Record `i` is a possible original of record `j`: before it, not a copy, same
/// content, and neither repeats an earlier path.
pub open spec fn source_of(items: Seq<Item>, i: int, j: int) -> bool {
    &&& 0 <= i < j < items.len()
    &&& !is_copy(items, i)
    &&& !repeats_path(items, i)
    &&& !repeats_path(items, j)
    &&& same_content(items[i], items[j])
}

/// Record `i` is the original of record `j`: the first possible one.
pub open spec fn is_original_of(items: Seq<Item>, i: int, j: int) -> bool {
    &&& source_of(items, i, j)
    &&& forall|k: int| 0 <= k < i ==> !#[trigger] source_of(items, k, j)
}

/// Record `j` has a possible original among the first `i` records.
pub open spec fn copied_before(items: Seq<Item>, j: int, i: int) -> bool {
    exists|k: int| 0 <= k < i && #[trigger] source_of(items, k, j)
}

proof fn lemma_is_copy_unfold(items: Seq<Item>, j: int)
    requires
        0 <= j,
    ensures
        is_copy(items, j) == copied_before(items, j, j),
{
    if is_copy(items, j) {
        let i = choose|i: int| 0 <= i < j < items.len() && !is_copy(items, i) && !repeats_path(items, i)
            && !repeats_path(items, j) && #[trigger] same_content(items[i], items[j]);
        assert(source_of(items, i, j));
    }
    if copied_before(items, j, j) {
        let k = choose|k: int| 0 <= k < j && #[trigger] source_of(items, k, j);
        assert(same_content(items[k], items[j]));
    }
}

/// For each record of a group, whether it repeats the path of an earlier record.
fn repeated_paths(items: &Vec<Item>) -> (r: Vec<bool>)
    ensures
        r@.len() == items@.len(),
        forall|j: int| 0 <= j < r@.len() ==> r@[j] == repeats_path(items@, j),
{
    let n = items.len();
    let mut r: Vec<bool> = Vec::new();
    let mut j: usize = 0;
    while j < n
        invariant
            j <= n == items@.len(),
            r@.len() == j,
            forall|l: int| 0 <= l < j ==> r@[l] == repeats_path(items@, l),
        decreases n - j,
    {
        let mut found = false;
        let mut i: usize = 0;
        while i < j
            invariant
                i <= j < n == items@.len(),
                found == exists|k: int| 0 <= k < i && #[trigger] items@[k].path_view() == items@[j as int].path_view(),
            decreases j - i,
        {
            if items[i].path == items[j].path {
                found = true;
                assert(items@[i as int].path_view() == items@[j as int].path_view());
            } else {
                assert(items@[i as int].path_view() != items@[j as int].path_view());
            }
            i += 1;
        }
        r.push(found);
        j += 1;
    }
    r
}

/// For each record of a group, the index of its original, or `None` where it is no copy.
/// Records are taken in order; one found to be a copy is never an original, and one
/// that repeats an earlier record's path is neither.
pub fn originals(items: &Vec<Item>) -> (r: Vec<Option<usize>>)
    ensures
        r@.len() == items@.len(),
        forall|j: int| 0 <= j < r@.len() ==> (r@[j] is None <==> !is_copy(items@, j)),
        forall|j: int| 0 <= j < r@.len() && r@[j] is Some ==> is_original_of(items@, r@[j]->0 as int, j),
{
    let n = items.len();
    let mut orig: Vec<Option<usize>> = Vec::new();
    let mut k: usize = 0;
    while k < n
        invariant
            k <= n == items@.len(),
            orig@.len() == k,
            forall|j: int| 0 <= j < k ==> orig@[j] is None,
        decreases n - k,
    {
        orig.push(None);
        k += 1;
    }
    let rep = repeated_paths(items);
    let mut i: usize = 0;
    while i < n
        invariant
            i <= n == items@.len(),
            orig@.len() == n,
            rep@.len() == n,
            forall|j: int| 0 <= j < n ==> rep@[j] == repeats_path(items@, j),
            forall|j: int| 0 <= j < n ==> (orig@[j] is Some <==> copied_before(items@, j, i as int)),
            forall|j: int| 0 <= j < n && orig@[j] is Some ==> is_original_of(items@, orig@[j]->0 as int, j),
        decreases n - i,
    {
        proof {
            lemma_is_copy_unfold(items@, i as int);
        }
        if orig[i].is_none() && !rep[i] {
            let mut j: usize = i + 1;
            while j < n
                invariant
                    i < j <= n == items@.len(),
                    !is_copy(items@, i as int),
                    !repeats_path(items@, i as int),
                    orig@.len() == n,
                    rep@.len() == n,
                    forall|l: int| 0 <= l < n ==> rep@[l] == repeats_path(items@, l),
                    forall|l: int| 0 <= l < n ==> (orig@[l] is Some <==> (if i < l < j {
                        copied_before(items@, l, i + 1)
                    } else {
                        copied_before(items@, l, i as int)
                    })),
                    forall|l: int| 0 <= l < n && orig@[l] is Some ==> is_original_of(items@, orig@[l]->0 as int, l),
                decreases n - j,
            {
                if orig[j].is_none() && !rep[j] {
                    if is_same_content(&items[i], &items[j]) {
                        assert(source_of(items@, i as int, j as int));
                        orig.set(j, Some(i));
                    }
                }
                proof {
                    if orig@[j as int] is Some {
                        let k = choose|k: int| 0 <= k < i + 1 && #[trigger] source_of(items@, k, j as int)
                            ;
                        assert(0 <= k < i + 1 && source_of(items@, k, j as int));
                    }
                }
                j += 1;
            }
            assert forall|l: int| 0 <= l <= i implies (copied_before(items@, l, i + 1)
                == copied_before(items@, l, i as int)) by {
                if copied_before(items@, l, i + 1) {
                    let k = choose|k: int| 0 <= k < i + 1 && #[trigger] source_of(items@, k, l);
                    assert(k < i);
                }
            }
        } else {
            assert forall|l: int| 0 <= l < n implies (#[trigger] copied_before(items@, l, i + 1)
                == copied_before(items@, l, i as int)) by {
                if copied_before(items@, l, i + 1) {
                    let k = choose|k: int| 0 <= k < i + 1 && #[trigger] source_of(items@, k, l);
                    assert(k != i);
                    assert(copied_before(items@, l, i as int));
                }
            }
        }
        i += 1;
    }
    assert forall|j: int| 0 <= j < n implies (orig@[j] is None <==> !is_copy(items@, j)) by {
        lemma_is_copy_unfold(items@, j);
        if copied_before(items@, j, n as int) {
            let k = choose|k: int| 0 <= k < n && #[trigger] source_of(items@, k, j);
            assert(source_of(items@, k, j));
        }
    }
    orig
}

/// A record has at most one original.
proof fn lemma_original_unique(items: Seq<Item>, i1: int, i2: int, j: int)
    requires
        is_original_of(items, i1, j),
        is_original_of(items, i2, j),
    ensures
        i1 == i2,
{
    if i1 < i2 {
        assert(!source_of(items, i1, j));
    } else if i2 < i1 {
        assert(!source_of(items, i2, j));
    }
}

/// `s` holds `j`.
pub open spec fn holds(s: Seq<usize>, j: int) -> bool {
    exists|t: int| 0 <= t < s.len() && s[t] as int == j
}

/// The duplicate graph of a group: for each original, in order, the records that
/// are its copies, in order. Which record of a set of equal ones is the original
/// follows the order of the records alone.
pub fn duplicate_graph(items: &Vec<Item>) -> (r: Vec<(usize, Vec<usize>)>)
    ensures
        forall|e: int| 0 <= e < r@.len() ==> #[trigger] r@[e].1@.len() > 0,
        forall|e: int, t: int| 0 <= e < r@.len() && 0 <= t < r@[e].1@.len()
            ==> is_original_of(items@, r@[e].0 as int, #[trigger] r@[e].1@[t] as int),
        forall|e: int, t1: int, t2: int| 0 <= e < r@.len() && 0 <= t1 < t2 < r@[e].1@.len()
            ==> #[trigger] r@[e].1@[t1] < #[trigger] r@[e].1@[t2],
        forall|e1: int, e2: int| 0 <= e1 < e2 < r@.len() ==> #[trigger] r@[e1].0 < #[trigger] r@[e2].0,
        forall|i: int, j: int| #[trigger] is_original_of(items@, i, j) ==> exists|e: int|
            0 <= e < r@.len() && #[trigger] r@[e].0 == i && holds(r@[e].1@, j),
        // no path is listed twice, as a key or as a copy
        forall|e1: int, t1: int, e2: int, t2: int|
            0 <= e1 < r@.len() && 0 <= t1 < r@[e1].1@.len() && 0 <= e2 < r@.len() && 0 <= t2 < r@[e2].1@.len()
            && (e1 != e2 || t1 != t2) ==> items@[#[trigger] r@[e1].1@[t1] as int].path_view()
            != items@[#[trigger] r@[e2].1@[t2] as int].path_view(),
        forall|e1: int, e2: int| 0 <= e1 < r@.len() && 0 <= e2 < r@.len() && e1 != e2
            ==> items@[#[trigger] r@[e1].0 as int].path_view() != items@[#[trigger] r@[e2].0 as int].path_view(),
        forall|e1: int, e2: int, t: int| 0 <= e1 < r@.len() && 0 <= e2 < r@.len() && 0 <= t < r@[e2].1@.len()
            ==> items@[#[trigger] r@[e1].0 as int].path_view() != items@[#[trigger] r@[e2].1@[t] as int].path_view(),
{
    let orig = originals(items);
    let n = items.len();
    let mut r: Vec<(usize, Vec<usize>)> = Vec::new();
    let mut o: usize = 0;
    while o < n
        invariant
            o <= n == items@.len() == orig@.len(),
            forall|j: int| 0 <= j < n ==> (orig@[j] is None <==> !is_copy(items@, j)),
            forall|j: int| 0 <= j < n && orig@[j] is Some ==> is_original_of(items@, orig@[j]->0 as int, j),
            forall|e: int| 0 <= e < r@.len() ==> #[trigger] r@[e].1@.len() > 0 && r@[e].0 < o,
            forall|e: int, t: int| 0 <= e < r@.len() && 0 <= t < r@[e].1@.len()
                ==> is_original_of(items@, r@[e].0 as int, #[trigger] r@[e].1@[t] as int),
            forall|e: int, t1: int, t2: int| 0 <= e < r@.len() && 0 <= t1 < t2 < r@[e].1@.len()
                ==> #[trigger] r@[e].1@[t1] < #[trigger] r@[e].1@[t2],
            forall|e1: int, e2: int| 0 <= e1 < e2 < r@.len() ==> #[trigger] r@[e1].0 < #[trigger] r@[e2].0,
            forall|i: int, j: int| 0 <= i < o && #[trigger] is_original_of(items@, i, j) ==> exists|e: int|
                0 <= e < r@.len() && #[trigger] r@[e].0 == i && holds(r@[e].1@, j),
        decreases n - o,
    {
        let mut list: Vec<usize> = Vec::new();
        let mut c: usize = o + 1;
        while c < n
            invariant
                o < c <= n,
                n == items@.len() == orig@.len(),
                forall|j: int| 0 <= j < n && orig@[j] is Some ==> is_original_of(items@, orig@[j]->0 as int, j),
                forall|j: int| 0 <= j < n ==> (orig@[j] is None <==> !is_copy(items@, j)),
                forall|t: int| 0 <= t < list@.len() ==> is_original_of(items@, o as int, #[trigger] list@[t] as int)
                    && list@[t] < c,
                forall|t1: int, t2: int| 0 <= t1 < t2 < list@.len() ==> #[trigger] list@[t1] < #[trigger] list@[t2],
                forall|j: int| o < j < c && #[trigger] is_original_of(items@, o as int, j) ==> holds(list@, j),
            decreases n - c,
        {
            let ghost l0 = list@;
            if let Some(x) = orig[c] {
                if x == o {
                    list.push(c);
                    assert(list@[list@.len() - 1] == c);
                }
            }
            proof {
                assert forall|j: int| o < j < c && #[trigger] is_original_of(items@, o as int, j) implies holds(list@, j) by {
                    let t = choose|t: int| 0 <= t < l0.len() && l0[t] as int == j;
                    assert(list@[t] == l0[t]);
                }
                if is_original_of(items@, o as int, c as int) {
                    assert(is_copy(items@, c as int));
                    lemma_original_unique(items@, o as int, orig@[c as int]->0 as int, c as int);
                    assert(list@[list@.len() - 1] == c);
                    assert(holds(list@, c as int));
                }
            }
            c += 1;
        }
        let ghost r0 = r@;
        if list.len() > 0 {
            r.push((o, list));
            assert(r@[r@.len() - 1].0 == o);
            assert forall|e: int| 0 <= e < r@.len() implies #[trigger] r@[e].1@.len() > 0 && r@[e].0 < o + 1 by {
                if e < r0.len() {
                    assert(r@[e] == r0[e]);
                    assert(r0[e].1@.len() > 0);
                }
            }
            assert forall|e1: int, e2: int| 0 <= e1 < e2 < r@.len() implies #[trigger] r@[e1].0
                < #[trigger] r@[e2].0 by {
                if e2 == r@.len() - 1 {
                    assert(r@[e1] == r0[e1]);
                    assert(r0[e1].1@.len() > 0);
                } else {
                    assert(r@[e1] == r0[e1] && r@[e2] == r0[e2]);
                }
            }
        }
        assert forall|i: int, j: int| 0 <= i < o + 1 && #[trigger] is_original_of(items@, i, j) implies exists|e: int|
            0 <= e < r@.len() && #[trigger] r@[e].0 == i && holds(r@[e].1@, j) by {
            if i < o {
                let e = choose|e: int| 0 <= e < r0.len() && #[trigger] r0[e].0 == i && holds(r0[e].1@, j);
                assert(r@[e] == r0[e]);
            } else {
                assert(holds(list@, j));
                let e = r@.len() - 1;
                assert(r@[e].0 == i);
            }
        }
        o += 1;
    }
    proof {
        let its = items@;
        assert forall|e1: int, t1: int, e2: int, t2: int|
            0 <= e1 < r@.len() && 0 <= t1 < r@[e1].1@.len() && 0 <= e2 < r@.len() && 0 <= t2 < r@[e2].1@.len()
            && (e1 != e2 || t1 != t2) implies its[#[trigger] r@[e1].1@[t1] as int].path_view()
            != its[#[trigger] r@[e2].1@[t2] as int].path_view() by {
            let c1 = r@[e1].1@[t1] as int;
            let c2 = r@[e2].1@[t2] as int;
            assert(is_original_of(its, r@[e1].0 as int, c1));
            assert(is_original_of(its, r@[e2].0 as int, c2));
            if c1 == c2 {
                lemma_original_unique(its, r@[e1].0 as int, r@[e2].0 as int, c1);
                if e1 < e2 {
                    assert(r@[e1].0 < r@[e2].0);
                } else if e2 < e1 {
                    assert(r@[e2].0 < r@[e1].0);
                } else if t1 < t2 {
                    assert(r@[e1].1@[t1] < r@[e1].1@[t2]);
                } else {
                    assert(r@[e1].1@[t2] < r@[e1].1@[t1]);
                }
            }
            lemma_unrepeated_paths_differ(its, c1, c2);
        }
        assert forall|e1: int, e2: int| 0 <= e1 < r@.len() && 0 <= e2 < r@.len() && e1 != e2
            implies its[#[trigger] r@[e1].0 as int].path_view() != its[#[trigger] r@[e2].0 as int].path_view() by {
            assert(r@[e1].1@.len() > 0 && r@[e2].1@.len() > 0);
            assert(is_original_of(its, r@[e1].0 as int, r@[e1].1@[0] as int));
            assert(is_original_of(its, r@[e2].0 as int, r@[e2].1@[0] as int));
            if e1 < e2 {
                assert(r@[e1].0 < r@[e2].0);
            } else {
                assert(r@[e2].0 < r@[e1].0);
            }
            lemma_unrepeated_paths_differ(its, r@[e1].0 as int, r@[e2].0 as int);
        }
        assert forall|e1: int, e2: int, t: int| 0 <= e1 < r@.len() && 0 <= e2 < r@.len() && 0 <= t < r@[e2].1@.len()
            implies its[#[trigger] r@[e1].0 as int].path_view() != its[#[trigger] r@[e2].1@[t] as int].path_view() by {
            let k = r@[e1].0 as int;
            let c = r@[e2].1@[t] as int;
            assert(r@[e1].1@.len() > 0);
            assert(is_original_of(its, k, r@[e1].1@[0] as int));
            assert(is_original_of(its, r@[e2].0 as int, c));
            lemma_is_copy_unfold(its, c);
            assert(source_of(its, r@[e2].0 as int, c));
            assert(is_copy(its, c));
            assert(!is_copy(its, k));
            lemma_unrepeated_paths_differ(its, k, c);
        }
    }
    r
}

/// Two records that repeat no earlier path are at different paths.
proof fn lemma_unrepeated_paths_differ(items: Seq<Item>, i: int, j: int)
    requires
        0 <= i < items.len(),
        0 <= j < items.len(),
        i != j,
        !repeats_path(items, i),
        !repeats_path(items, j),
    ensures
        items[i].path_view() != items[j].path_view(),
{
    if i < j {
        assert(!(items[i].path_view() == items[j].path_view()));
    } else {
        assert(!(items[j].path_view() == items[i].path_view()));
    }
}

// ---------------------------------------------------------------------------
// Size groups

/// `it` is a fresh record of the file at `path` of `size` bytes.
pub open spec fn fresh(it: Item, path: Seq<char>, size: u64) -> bool {
    &&& it.path_view() == path
    &&& it.size_view() == size
    &&& it.sample_view() is None
    &&& it.digest_view() is None
}

/// Record `k` of a group needs its digest: it has none yet, and another record at
/// another path has the same known sample.
pub open spec fn wants_digest(items: Seq<Item>, k: int) -> bool {
    &&& items[k].digest_view() is None
    &&& items[k].sample_view() is Some
    &&& exists|m: int| 0 <= m < items.len() && m != k
        && #[trigger] items[m].path_view() != items[k].path_view()
        && items[m].sample_view() == items[k].sample_view()
}

/// The records of the files that share one size.
pub struct Group {
    size: u64,
    items: Vec<Item>,
}

impl Group {
    pub closed spec fn size_view(&self) -> u64 {
        self.size
    }

    pub closed spec fn view(&self) -> Seq<Item> {
        self.items@
    }

    pub fn size(&self) -> (r: u64)
        ensures
            r == self.size_view(),
    {
        self.size
    }

    pub fn items(&self) -> (r: &Vec<Item>)
        ensures
            r@ == self@,
    {
        &self.items
    }

    pub fn len(&self) -> (r: usize)
        ensures
            r == self@.len(),
    {
        self.items.len()
    }

    /// Stores the sample of record `k`; one already stored is kept.
    pub fn set_sample(&mut self, k: usize, s: Sample)
        requires
            k < old(self)@.len(),
        ensures
            final(self).size_view() == old(self).size_view(),
            final(self)@.len() == old(self)@.len(),
            forall|m: int| 0 <= m < old(self)@.len() && m != k ==> final(self)@[m] == old(self)@[m],
            final(self)@[k as int].sample_view() == (if old(self)@[k as int].sample_view() is Some {
                old(self)@[k as int].sample_view()
            } else {
                Some(s@)
            }),
            final(self)@[k as int].path_view() == old(self)@[k as int].path_view(),
            final(self)@[k as int].size_view() == old(self)@[k as int].size_view(),
            final(self)@[k as int].digest_view() == old(self)@[k as int].digest_view(),
    {
        let mut it = Item::new(String::new(), 0);
        self.items.set_and_swap(k, &mut it);
        it.set_bytes(s);
        self.items.set_and_swap(k, &mut it);
    }

    /// Stores the digest of record `k`; one already stored is kept.
    pub fn set_digest(&mut self, k: usize, h: State)
        requires
            k < old(self)@.len(),
        ensures
            final(self).size_view() == old(self).size_view(),
            final(self)@.len() == old(self)@.len(),
            forall|m: int| 0 <= m < old(self)@.len() && m != k ==> final(self)@[m] == old(self)@[m],
            final(self)@[k as int].digest_view() == (if old(self)@[k as int].digest_view() is Some {
                old(self)@[k as int].digest_view()
            } else {
                Some(h@)
            }),
            final(self)@[k as int].path_view() == old(self)@[k as int].path_view(),
            final(self)@[k as int].size_view() == old(self)@[k as int].size_view(),
            final(self)@[k as int].sample_view() == old(self)@[k as int].sample_view(),
    {
        let mut it = Item::new(String::new(), 0);
        self.items.set_and_swap(k, &mut it);
        it.set_hash(h);
        self.items.set_and_swap(k, &mut it);
    }

    /// The records whose sample is still to be read, in order. A group of one
    /// record needs none.
    pub fn samples_needed(&self) -> (r: Vec<usize>)
        ensures
            self@.len() < 2 ==> r@.len() == 0,
            forall|t: int| 0 <= t < r@.len() ==> #[trigger] r@[t] < self@.len()
                && self@[r@[t] as int].sample_view() is None,
            forall|t1: int, t2: int| 0 <= t1 < t2 < r@.len() ==> #[trigger] r@[t1] < #[trigger] r@[t2],
            self@.len() >= 2 ==> forall|k: int| 0 <= k < self@.len()
                && #[trigger] self@[k].sample_view() is None ==> holds(r@, k),
    {
        let mut r: Vec<usize> = Vec::new();
        let n = self.items.len();
        if n < 2 {
            return r;
        }
        let mut k: usize = 0;
        while k < n
            invariant
                k <= n == self@.len(),
                forall|t: int| 0 <= t < r@.len() ==> #[trigger] r@[t] < k
                    && self@[r@[t] as int].sample_view() is None,
                forall|t1: int, t2: int| 0 <= t1 < t2 < r@.len() ==> #[trigger] r@[t1] < #[trigger] r@[t2],
                forall|m: int| 0 <= m < k && #[trigger] self@[m].sample_view() is None ==> holds(r@, m),
            decreases n - k,
        {
            let ghost r0 = r@;
            if self.items[k].bytes().is_none() {
                r.push(k);
                assert(r@[r@.len() - 1] == k);
            }
            assert forall|m: int| 0 <= m < k && #[trigger] self@[m].sample_view() is None implies holds(r@, m) by {
                let t = choose|t: int| 0 <= t < r0.len() && r0[t] as int == m;
                assert(r@[t] == r0[t]);
            }
            k += 1;
        }
        r
    }

    /// The records whose digest is still to be computed, in order: those that share
    /// their sample with a record at another path. A group of one record needs none.
    pub fn digests_needed(&self) -> (r: Vec<usize>)
        ensures
            self@.len() < 2 ==> r@.len() == 0,
            forall|t: int| 0 <= t < r@.len() ==> #[trigger] r@[t] < self@.len()
                && wants_digest(self@, r@[t] as int),
            forall|t1: int, t2: int| 0 <= t1 < t2 < r@.len() ==> #[trigger] r@[t1] < #[trigger] r@[t2],
            forall|k: int| 0 <= k < self@.len() && #[trigger] wants_digest(self@, k) ==> holds(r@, k),
    {
        let mut r: Vec<usize> = Vec::new();
        let n = self.items.len();
        if n < 2 {
            return r;
        }
        let mut k: usize = 0;
        while k < n
            invariant
                k <= n == self@.len(),
                forall|t: int| 0 <= t < r@.len() ==> #[trigger] r@[t] < k && wants_digest(self@, r@[t] as int),
                forall|t1: int, t2: int| 0 <= t1 < t2 < r@.len() ==> #[trigger] r@[t1] < #[trigger] r@[t2],
                forall|m: int| 0 <= m < k && #[trigger] wants_digest(self@, m) ==> holds(r@, m),
            decreases n - k,
        {
            let ghost r0 = r@;
            let mut wanted = false;
            if self.items[k].hash().is_none() {
                let mut m: usize = 0;
                while m < n
                    invariant
                        m <= n == self@.len(),
                        k < n,
                        self@[k as int].digest_view() is None,
                        wanted ==> wants_digest(self@, k as int),
                        !wanted ==> forall|l: int| 0 <= l < m && l != k ==> !(#[trigger] self@[l].path_view()
                            != self@[k as int].path_view() && self@[l].sample_view() == self@[k as int].sample_view()
                            && self@[k as int].sample_view() is Some),
                    decreases n - m,
                {
                    if m != k && !(self.items[m].path == self.items[k].path)
                        && same_sample(&self.items[k], &self.items[m]) {
                        wanted = true;
                        assert(self@[m as int].path_view() != self@[k as int].path_view());
                        assert(wants_digest(self@, k as int));
                    }
                    m += 1;
                }
            }
            if wanted {
                r.push(k);
                assert(r@[r@.len() - 1] == k);
            }
            assert forall|m: int| 0 <= m < k + 1 && #[trigger] wants_digest(self@, m) implies holds(r@, m) by {
                if m < k {
                    let t = choose|t: int| 0 <= t < r0.len() && r0[t] as int == m;
                    assert(r@[t] == r0[t]);
                } else {
                    assert(wanted);
                    assert(r@[r@.len() - 1] == k);
                }
            }
            k += 1;
        }
        r
    }
}

// ---------------------------------------------------------------------------
// All scanned files, grouped by size

/// The scanned files, one group per size, groups in the order their size was first seen.
pub struct Items {
    map: Vec<Group>,
}

impl Items {
    pub closed spec fn view(&self) -> Seq<Group> {
        self.map@
    }

    /// Each size has one group, and each record of a group has the group's size.
    pub open spec fn wf(&self) -> bool {
        &&& forall|g1: int, g2: int| 0 <= g1 < g2 < self@.len()
            ==> #[trigger] self@[g1].size_view() != #[trigger] self@[g2].size_view()
        &&& forall|g: int, k: int| 0 <= g < self@.len() && 0 <= k < self@[g]@.len()
            ==> #[trigger] self@[g]@[k].size_view() == self@[g].size_view()
        &&& forall|g: int| 0 <= g < self@.len() ==> #[trigger] self@[g]@.len() > 0
    }

    pub fn new() -> (r: Self)
        ensures
            r.wf(),
            r@.len() == 0,
    {
        Items { map: Vec::new() }
    }

    /// The number of distinct sizes seen.
    pub fn len(&self) -> (r: usize)
        ensures
            r == self@.len(),
    {
        self.map.len()
    }

    /// Records the file at `path` of `size` bytes, in the group of its size.
    pub fn add(&mut self, size: u64, path: String)
        requires
            old(self).wf(),
        ensures
            final(self).wf(),
            (exists|g: int| 0 <= g < old(self)@.len() && #[trigger] old(self)@[g].size_view() == size) ==> {
                &&& final(self)@.len() == old(self)@.len()
                &&& forall|g: int| 0 <= g < old(self)@.len() && #[trigger] old(self)@[g].size_view() != size
                    ==> final(self)@[g] == old(self)@[g]
                &&& forall|g: int| 0 <= g < old(self)@.len() && #[trigger] old(self)@[g].size_view() == size
                    ==> final(self)@[g].size_view() == size
                        && final(self)@[g]@.drop_last() == old(self)@[g]@
                        && fresh(final(self)@[g]@.last(), path@, size)
                        && final(self)@[g]@.len() == old(self)@[g]@.len() + 1
            },
            !(exists|g: int| 0 <= g < old(self)@.len() && #[trigger] old(self)@[g].size_view() == size) ==> {
                &&& final(self)@.len() == old(self)@.len() + 1
                &&& final(self)@.drop_last() == old(self)@
                &&& final(self)@.last().size_view() == size
                &&& final(self)@.last()@.len() == 1
                &&& fresh(final(self)@.last()@[0], path@, size)
            },
    {
        let item = Item::new(path, size);
        let n = self.map.len();
        let mut g: usize = 0;
        while g < n && self.map[g].size != size
            invariant
                g <= n == self@.len(),
                forall|h: int| 0 <= h < g ==> #[trigger] self@[h].size_view() != size,
            decreases n - g,
        {
            g += 1;
        }
        if g < n {
            let mut grp = Group { size: 0, items: Vec::new() };
            self.map.set_and_swap(g, &mut grp);
            let ghost before = grp.items@;
            grp.items.push(item);
            assert(grp.items@.drop_last() =~= before);
            self.map.set_and_swap(g, &mut grp);
            assert(old(self)@[g as int].size_view() == size);
            assert(forall|h: int| 0 <= h < n && h != g ==> self@[h] == old(self)@[h]);
            assert(self@[g as int]@.last().size_view() == size);
            assert forall|h: int, k: int| 0 <= h < self@.len() && 0 <= k < self@[h]@.len()
                implies #[trigger] self@[h]@[k].size_view() == self@[h].size_view() by {
                if h == g && k < before.len() {
                    assert(self@[h]@[k] == old(self)@[h]@[k]);
                }
            }
            assert forall|h: int| 0 <= h < n && #[trigger] old(self)@[h].size_view() == size implies h == g by {
                if h != g {
                    assert(old(self)@[h].size_view() != old(self)@[g as int].size_view());
                }
            }
        } else {
            let mut items = Vec::new();
            items.push(item);
            self.map.push(Group { size, items });
            assert(self@.drop_last() =~= old(self)@);
            assert(forall|h: int| 0 <= h < n ==> self@[h] == old(self)@[h]);
        }
    }

    /// The groups of two or more records, in order; a group of one cannot hold a
    /// duplicate and is dropped before any file is read.
    pub fn candidates(self) -> (r: Vec<Group>)
        ensures
            r@ == self@.filter(|g: Group| g@.len() >= 2),
    {
        let ghost all = self.map@;
        let mut src = self.map;
        let n = src.len();
        let mut r: Vec<Group> = Vec::new();
        let mut i: usize = 0;
        while i < n
            invariant
                i <= n == src@.len() == all.len(),
                src@.subrange(i as int, n as int) == all.subrange(i as int, n as int),
                r@ == all.subrange(0, i as int).filter(|g: Group| g@.len() >= 2),
            decreases n - i,
        {
            let mut grp = Group { size: 0, items: Vec::new() };
            let ghost s0 = src@;
            src.set_and_swap(i, &mut grp);
            proof {
                assert forall|k: int| i < k < n implies #[trigger] src@[k] == all[k] by {
                    assert(s0.subrange(i as int, n as int)[k - i] == all.subrange(i as int, n as int)[k - i]);
                }
                assert(all.subrange(i as int, n as int)[0] == all[i as int]);
                reveal(Seq::filter);
                assert(all.subrange(0, i + 1).drop_last() =~= all.subrange(0, i as int));
            }
            if grp.items.len() >= 2 {
                r.push(grp);
            }
            assert(src@.subrange(i + 1, n as int) =~= all.subrange(i + 1, n as int));
            i += 1;
        }
        assert(all.subrange(0, n as int) =~= all);
        r
    }
}

// ---------------------------------------------------------------------------
// Laws

/// A sample is three windows wide whatever the size of the file, and for a file
/// of at least three windows each window lies inside it.
pub proof fn lemma_sample_width(c: Seq<u8>)
    ensures
        sample_of(c).len() == 15,
        c.len() >= 15 ==> 0 <= (c.len() - 5) / 2 && (c.len() - 5) / 2 + 5 <= c.len(),
{
}

/// Equal samples never make a copy by themselves: a record whose digest is not
/// known, or differs from that of a later record, is not that record's original.
pub proof fn lemma_sample_defers_to_digest(items: Seq<Item>, i: int, j: int)
    requires
        0 <= i < j < items.len(),
        items[i].digest_view() is None || items[i].digest_view() != items[j].digest_view(),
    ensures
        !is_original_of(items, i, j),
{
}

/// Records of one content at distinct paths form one group: the first is the
/// original and every other record is its copy.
pub proof fn lemma_identical_records(items: Seq<Item>)
    requires
        items.len() >= 1,
        forall|i: int, j: int| 0 <= i < items.len() && 0 <= j < items.len() && i != j
            ==> #[trigger] same_content(items[i], items[j]),
    ensures
        !is_copy(items, 0),
        forall|j: int| 1 <= j < items.len() ==> #[trigger] is_copy(items, j) && is_original_of(items, 0, j),
{
    assert(!is_copy(items, 0));
    assert forall|j: int| 1 <= j < items.len() implies #[trigger] is_copy(items, j) && is_original_of(items, 0, j) by {
        assert forall|i: int| 0 <= i < j implies #[trigger] items[i].path_view() != items[j].path_view() by {
            assert(same_content(items[i], items[j]));
        }
        assert(!repeats_path(items, j));
        assert(!repeats_path(items, 0));
        assert(same_content(items[0], items[j]));
    }
}

} // verus!
