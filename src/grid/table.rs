//! Bookkeeping for the searches: a hash index that interns boards as small
//! integer ids, a binary min-heap, and the bound on how many distinct
//! boards there can be.

use vstd::arithmetic::power::pow;
use vstd::prelude::*;

verus! {

/// Every entry of `s` lies in `0..b`.
pub open spec fn digits_below(s: Seq<i32>, b: int) -> bool {
    forall|i: int| 0 <= i < s.len() ==> 0 <= #[trigger] s[i] < b
}

/// `s` read as a number in base `b`, last entry least significant.
pub open spec fn seq_code(s: Seq<i32>, b: int) -> int
    decreases s.len(),
{
    if s.len() == 0 {
        0
    } else {
        seq_code(s.drop_last(), b) * b + s.last()
    }
}

proof fn lemma_code_range(s: Seq<i32>, b: int)
    requires
        b >= 1,
        digits_below(s, b),
    ensures
        0 <= seq_code(s, b) < pow(b, s.len()),
    decreases s.len(),
{
    reveal(pow);
    if s.len() > 0 {
        let p = s.drop_last();
        assert(digits_below(p, b)) by {
            assert forall|i: int| 0 <= i < p.len() implies 0 <= #[trigger] p[i] < b by {
                assert(p[i] == s[i]);
            }
        }
        lemma_code_range(p, b);
        let c = seq_code(p, b);
        let e = pow(b, p.len());
        let x = s.last() as int;
        assert(0 <= x < b) by {
            assert(s.last() == s[s.len() - 1]);
        }
        assert(pow(b, s.len()) == b * e);
        assert(0 <= c * b + x < b * e) by (nonlinear_arith)
            requires
                0 <= c < e,
                0 <= x < b,
        ;
    }
}

proof fn lemma_code_injective(s: Seq<i32>, t: Seq<i32>, b: int)
    requires
        b >= 1,
        s.len() == t.len(),
        digits_below(s, b),
        digits_below(t, b),
        seq_code(s, b) == seq_code(t, b),
    ensures
        s == t,
    decreases s.len(),
{
    if s.len() > 0 {
        let ps = s.drop_last();
        let pt = t.drop_last();
        assert(digits_below(ps, b)) by {
            assert forall|i: int| 0 <= i < ps.len() implies 0 <= #[trigger] ps[i] < b by {
                assert(ps[i] == s[i]);
            }
        }
        assert(digits_below(pt, b)) by {
            assert forall|i: int| 0 <= i < pt.len() implies 0 <= #[trigger] pt[i] < b by {
                assert(pt[i] == t[i]);
            }
        }
        let cs = seq_code(ps, b);
        let ct = seq_code(pt, b);
        let xs = s.last() as int;
        let xt = t.last() as int;
        assert(0 <= xs < b && 0 <= xt < b) by {
            assert(s.last() == s[s.len() - 1]);
            assert(t.last() == t[t.len() - 1]);
        }
        lemma_code_range(ps, b);
        lemma_code_range(pt, b);
        assert(xs == xt && cs == ct) by {
            vstd::arithmetic::div_mod::lemma_fundamental_div_mod_converse(cs * b + xs, b, cs, xs);
            vstd::arithmetic::div_mod::lemma_fundamental_div_mod_converse(ct * b + xt, b, ct, xt);
        }
        lemma_code_injective(ps, pt, b);
        assert(s =~= ps.push(s.last()));
        assert(t =~= pt.push(t.last()));
    }
}

/// Boards of `n` cells with tiles below `n` are at most `n^n` in number: any
/// list of pairwise different ones is no longer.
pub proof fn lemma_distinct_boards_bounded(keys: Seq<Seq<i32>>, n: nat)
    requires
        n >= 1,
        forall|i: int| 0 <= i < keys.len() ==> (#[trigger] keys[i]).len() == n && digits_below(keys[i], n as int),
        forall|i: int, j: int| 0 <= i < keys.len() && 0 <= j < keys.len() && i != j ==> keys[i] != keys[j],
    ensures
        keys.len() <= pow(n as int, n),
{
    let dom = vstd::set_lib::set_int_range(0, keys.len() as int);
    let f = |i: int| seq_code(keys[i], n as int);
    vstd::set_lib::lemma_int_range(0, keys.len() as int);
    assert(vstd::relations::injective_on(f, dom)) by {
        assert forall|i: int, j: int| dom.contains(i) && dom.contains(j) && #[trigger] f(i) == #[trigger] f(j) implies i == j by {
            if i != j {
                lemma_code_injective(keys[i], keys[j], n as int);
            }
        }
    }
    vstd::set_lib::lemma_map_size(dom, dom.map(f), f);
    let top = pow(n as int, n);
    vstd::arithmetic::power::lemma_pow_positive(n as int, n);
    let range = vstd::set_lib::set_int_range(0, top);
    vstd::set_lib::lemma_int_range(0, top);
    assert(dom.map(f).subset_of(range)) by {
        assert forall|c: int| dom.map(f).contains(c) implies range.contains(c) by {
            let i = choose|i: int| dom.contains(i) && f(i) == c;
            lemma_code_range(keys[i], n as int);
        }
    }
    vstd::set_lib::lemma_len_subset(dom.map(f), range);
}


/// Modulus of the board hash, also the number of hash buckets.
pub const BUCKETS: u64 = 65521;

/// Polynomial hash of a board's tiles, reduced modulo `BUCKETS`.
pub open spec fn key_hash(s: Seq<i32>) -> int
    decreases s.len(),
{
    if s.len() == 0 {
        0
    } else {
        (key_hash(s.drop_last()) * 31 + s.last()) % (BUCKETS as int)
    }
}

pub open spec fn non_negative(s: Seq<i32>) -> bool {
    forall|i: int| 0 <= i < s.len() ==> 0 <= #[trigger] s[i]
}

fn hash_of(key: &Vec<i32>) -> (r: usize)
    requires
        non_negative(key@),
    ensures
        r == key_hash(key@),
        r < BUCKETS,
{
    let mut h: u64 = 0;
    let mut i: usize = 0;
    while i < key.len()
        invariant
            i <= key.len(),
            non_negative(key@),
            h == key_hash(key@.subrange(0, i as int)),
            h < BUCKETS,
        decreases key.len() - i,
    {
        assert(key@.subrange(0, i as int + 1).drop_last() =~= key@.subrange(0, i as int));
        assert(0 <= key@[i as int]);
        h = (h * 31 + key[i] as u64) % BUCKETS;
        i = i + 1;
    }
    assert(key@.subrange(0, key.len() as int) =~= key@);
    h as usize
}

/// Whether two boards have the same tiles.
pub fn same_tiles(a: &Vec<i32>, b: &Vec<i32>) -> (r: bool)
    ensures
        r == (a@ == b@),
{
    if a.len() != b.len() {
        return false;
    }
    let mut i: usize = 0;
    while i < a.len()
        invariant
            i <= a.len(),
            a.len() == b.len(),
            forall|j: int| 0 <= j < i ==> a@[j] == b@[j],
        decreases a.len() - i,
    {
        if a[i] != b[i] {
            return false;
        }
        i = i + 1;
    }
    assert(a@ =~= b@);
    true
}

/// Distinct boards, each named by its position in insertion order, found
/// again through a hash index.
pub struct Interner {
    keys: Vec<Vec<i32>>,
    buckets: Vec<Vec<usize>>,
}

impl Interner {
    /// The boards interned so far; a board's id is its index.
    pub closed spec fn view(&self) -> Seq<Seq<i32>> {
        Seq::new(self.keys.len() as nat, |i: int| self.keys@[i]@)
    }

    pub closed spec fn wf(&self) -> bool {
        &&& self.buckets.len() == BUCKETS
        &&& forall|b: int, j: int|
            0 <= b < self.buckets.len() && 0 <= j < self.buckets@[b].len() ==> {
                let id = #[trigger] self.buckets@[b]@[j] as int;
                &&& id < self.keys.len()
                &&& key_hash(self.keys@[id]@) == b
            }
        &&& forall|id: int|
            0 <= id < self.keys.len() ==> #[trigger] self.buckets@[key_hash(
                self.keys@[id]@,
            )]@.contains(id as usize)
        &&& forall|id: int| 0 <= id < self.keys.len() ==> non_negative(#[trigger] self.keys@[id]@)
        &&& forall|i: int, j: int|
            0 <= i < self.keys.len() && 0 <= j < self.keys.len() && i != j ==> self.keys@[i]@
                != self.keys@[j]@
    }

    /// An index that holds no board.
    pub fn new() -> (r: Self)
        ensures
            r.wf(),
            r.view() == Seq::<Seq<i32>>::empty(),
    {
        let mut buckets: Vec<Vec<usize>> = Vec::new();
        let mut b: u64 = 0;
        while b < BUCKETS
            invariant
                b <= BUCKETS,
                buckets.len() == b,
                forall|i: int| 0 <= i < b ==> (#[trigger] buckets@[i]).len() == 0,
            decreases BUCKETS - b,
        {
            buckets.push(Vec::new());
            b = b + 1;
        }
        let r = Interner { keys: Vec::new(), buckets };
        assert(r.view() =~= Seq::<Seq<i32>>::empty());
        r
    }

    pub fn len(&self) -> (r: usize)
        ensures
            r == self.view().len(),
    {
        self.keys.len()
    }

    /// The interned boards are pairwise different and without negative tiles.
    pub proof fn lemma_distinct(&self)
        requires
            self.wf(),
        ensures
            forall|i: int, j: int|
                0 <= i < self.view().len() && 0 <= j < self.view().len() && i != j ==> self.view()[i]
                    != self.view()[j],
    {
    }

    /// The id of `key`, if it was interned.
    pub fn lookup(&self, key: &Vec<i32>) -> (r: Option<usize>)
        requires
            self.wf(),
            non_negative(key@),
        ensures
            match r {
                Some(id) => id < self.view().len() && self.view()[id as int] == key@,
                None => forall|id: int| 0 <= id < self.view().len() ==> self.view()[id] != key@,
            },
    {
        let h = hash_of(key);
        let bucket = &self.buckets[h];
        let mut j: usize = 0;
        while j < bucket.len()
            invariant
                self.wf(),
                h == key_hash(key@),
                h < BUCKETS,
                *bucket == self.buckets@[h as int],
                j <= bucket.len(),
                forall|k: int| 0 <= k < j ==> self.keys@[bucket@[k] as int]@ != key@,
            decreases bucket.len() - j,
        {
            let id = bucket[j];
            assert(id == self.buckets@[h as int]@[j as int]);
            if same_tiles(&self.keys[id], key) {
                return Some(id);
            }
            j = j + 1;
        }
        proof {
            assert forall|id: int| 0 <= id < self.view().len() implies self.view()[id] != key@ by {
                if self.view()[id] == key@ {
                    assert(self.buckets@[key_hash(self.keys@[id]@)]@.contains(id as usize));
                    let k = choose|k: int| 0 <= k < bucket.len() && bucket@[k] == id as usize;
                    assert(self.keys@[bucket@[k] as int]@ != key@);
                }
            }
        }
        None
    }

    /// Interns a board not yet present; its id is the previous count.
    pub fn insert(&mut self, key: Vec<i32>) -> (r: usize)
        requires
            old(self).wf(),
            non_negative(key@),
            forall|id: int| 0 <= id < old(self).view().len() ==> old(self).view()[id] != key@,
        ensures
            final(self).wf(),
            final(self).view() == old(self).view().push(key@),
            r == old(self).view().len(),
    {
        let h = hash_of(&key);
        let id = self.keys.len();
        let ghost old_keys = self.keys@;
        let ghost old_buckets = self.buckets@;
        self.keys.push(key);
        self.buckets[h].push(id);
        proof {
            assert forall|b: int, j: int|
                0 <= b < self.buckets.len() && 0 <= j < self.buckets@[b].len() implies {
                let i = #[trigger] self.buckets@[b]@[j] as int;
                &&& i < self.keys.len()
                &&& key_hash(self.keys@[i]@) == b
            } by {
                if b == h as int && j == old_buckets[b].len() {
                } else {
                    assert(self.buckets@[b]@[j] == old_buckets[b]@[j]);
                }
            }
            assert forall|i: int| 0 <= i < self.keys.len() implies #[trigger] self.buckets@[key_hash(
                self.keys@[i]@,
            )]@.contains(i as usize) by {
                let b = key_hash(self.keys@[i]@);
                if i < id {
                    assert(self.keys@[i] == old_keys[i]);
                    assert(old_buckets[b]@.contains(i as usize));
                    let k = choose|k: int| 0 <= k < old_buckets[b].len() && old_buckets[b]@[k] == i as usize;
                    assert(self.buckets@[b]@[k] == i as usize);
                } else {
                    assert(self.buckets@[b]@[old_buckets[b].len() as int] == i as usize);
                }
            }
            assert forall|i: int| 0 <= i < self.keys.len() implies non_negative(#[trigger] self.keys@[i]@) by {
                if i < id {
                    assert(self.keys@[i] == old_keys[i]);
                }
            }
            assert forall|i: int, j: int|
                0 <= i < self.keys.len() && 0 <= j < self.keys.len() && i != j implies self.keys@[i]@
                != self.keys@[j]@ by {
                if i < id && j < id {
                    assert(self.keys@[i] == old_keys[i]);
                    assert(self.keys@[j] == old_keys[j]);
                } else if i < id {
                    assert(self.keys@[i]@ == old(self).view()[i]);
                } else {
                    assert(self.keys@[j]@ == old(self).view()[j]);
                }
            }
            assert(self.view() =~= old(self).view().push(self.keys@[id as int]@));
        }
        id
    }
}

/// Entry of the search queue: f-cost, h-cost, node id.
pub type Entry = (u128, i64, usize);

pub open spec fn entry_before(a: Entry, b: Entry) -> bool {
    a.0 < b.0 || (a.0 == b.0 && a.1 < b.1)
}

fn before(a: Entry, b: Entry) -> (r: bool)
    ensures
        r == entry_before(a, b),
{
    a.0 < b.0 || (a.0 == b.0 && a.1 < b.1)
}

/// `a` may stand before `b`: its (f, h) pair is not larger.
pub open spec fn entry_le(a: Entry, b: Entry) -> bool {
    !entry_before(b, a)
}

/// Heap order: no entry comes before its parent.
pub open spec fn heap_ok(s: Seq<Entry>) -> bool {
    forall|k: int| 0 < k < s.len() ==> entry_le(s[(k - 1) / 2], #[trigger] s[k])
}

proof fn lemma_root_first(s: Seq<Entry>, k: int)
    requires
        heap_ok(s),
        0 <= k < s.len(),
    ensures
        entry_le(s[0], s[k]),
    decreases k,
{
    if k > 0 {
        lemma_root_first(s, (k - 1) / 2);
    }
}

/// Binary min-heap of queue entries, least f-cost first and, among equal
/// f-costs, least h-cost first.
pub struct MinQueue {
    items: Vec<Entry>,
}

impl MinQueue {
    pub closed spec fn view(&self) -> Seq<Entry> {
        self.items@
    }

    pub closed spec fn wf(&self) -> bool {
        heap_ok(self.items@)
    }

    pub fn new() -> (r: Self)
        ensures
            r.wf(),
            r.view().len() == 0,
    {
        MinQueue { items: Vec::new() }
    }

    pub fn len(&self) -> (r: usize)
        ensures
            r == self.view().len(),
    {
        self.items.len()
    }

    fn swap(&mut self, i: usize, j: usize)
        requires
            i < old(self).items.len(),
            j < old(self).items.len(),
        ensures
            final(self).items@ == old(self).items@.update(i as int, old(self).items@[j as int]).update(
                j as int,
                old(self).items@[i as int],
            ),
            forall|k: int|
                0 <= k < final(self).items.len() ==> old(self).items@.contains(
                    #[trigger] final(self).items@[k],
                ),
            forall|x: Entry| #[trigger] old(self).items@.contains(x) ==> final(self).items@.contains(x),
    {
        let a = self.items[i];
        let b = self.items[j];
        self.items.set(i, b);
        self.items.set(j, a);
        proof {
            assert forall|k: int| 0 <= k < self.items.len() implies old(self).items@.contains(
                #[trigger] self.items@[k],
            ) by {
                if k == i as int {
                    assert(old(self).items@[j as int] == self.items@[k]);
                } else if k == j as int {
                    assert(old(self).items@[i as int] == self.items@[k]);
                } else {
                    assert(old(self).items@[k] == self.items@[k]);
                }
            }
            assert forall|x: Entry| #[trigger] old(self).items@.contains(x) implies self.items@.contains(x) by {
                let w = choose|w: int| 0 <= w < old(self).items.len() && old(self).items@[w] == x;
                if w == i as int {
                    assert(self.items@[j as int] == x);
                } else if w == j as int {
                    assert(self.items@[i as int] == x);
                } else {
                    assert(self.items@[w] == x);
                }
            }
        }
    }

    /// Adds an entry.
    pub fn push(&mut self, e: Entry)
        requires
            old(self).wf(),
        ensures
            final(self).wf(),
            final(self).view().len() == old(self).view().len() + 1,
            forall|k: int|
                0 <= k < final(self).view().len() ==> old(self).view().contains(
                    #[trigger] final(self).view()[k],
                ) || final(self).view()[k] == e,
            forall|x: Entry| #[trigger] old(self).view().contains(x) ==> final(self).view().contains(x),
            final(self).view().contains(e),
    {
        let ghost start = self.items@;
        self.items.push(e);
        proof {
            assert(self.items@[start.len() as int] == e);
            assert forall|x: Entry| #[trigger] start.contains(x) implies self.items@.contains(x) by {
                let w = choose|w: int| 0 <= w < start.len() && start[w] == x;
                assert(self.items@[w] == x);
            }
        }
        let mut i = self.items.len() - 1;
        while i > 0
            invariant
                i < self.items.len(),
                self.items.len() == start.len() + 1,
                forall|k: int|
                    0 < k < self.items.len() && k != i ==> entry_le(
                        self.items@[(k - 1) / 2],
                        #[trigger] self.items@[k],
                    ),
                i > 0 ==> forall|k: int|
                    0 < k < self.items.len() && (k - 1) / 2 == i ==> entry_le(
                        self.items@[(i - 1) / 2],
                        #[trigger] self.items@[k],
                    ),
                forall|k: int|
                    0 <= k < self.items.len() ==> start.contains(#[trigger] self.items@[k])
                        || self.items@[k] == e,
                forall|x: Entry| #[trigger] start.contains(x) ==> self.items@.contains(x),
                self.items@.contains(e),
            ensures
                heap_ok(self.items@),
                forall|x: Entry| #[trigger] start.contains(x) ==> self.items@.contains(x),
                self.items@.contains(e),
                self.items.len() == start.len() + 1,
                forall|k: int|
                    0 <= k < self.items.len() ==> start.contains(#[trigger] self.items@[k])
                        || self.items@[k] == e,
            decreases i,
        {
            let parent = (i - 1) / 2;
            if before(self.items[i], self.items[parent]) {
                let ghost pre = self.items@;
                self.swap(i, parent);
                proof {
                    let s = self.items@;
                    let p = parent as int;
                    let c = i as int;
                    assert forall|k: int| 0 < k < s.len() && k != p implies entry_le(
                        s[(k - 1) / 2],
                        #[trigger] s[k],
                    ) by {
                        if k == c {
                        } else if (k - 1) / 2 == c {
                            assert(entry_le(pre[p], pre[k]));
                        } else if (k - 1) / 2 == p {
                            assert(entry_le(pre[p], pre[k]));
                        } else {
                            assert(s[k] == pre[k]);
                            assert(entry_le(pre[(k - 1) / 2], pre[k]));
                        }
                    }
                    if p > 0 {
                        assert forall|k: int| 0 < k < s.len() && (k - 1) / 2 == p implies entry_le(
                            s[(p - 1) / 2],
                            #[trigger] s[k],
                        ) by {
                            assert(entry_le(pre[(p - 1) / 2], pre[p]));
                            if k != c {
                                assert(entry_le(pre[p], pre[k]));
                            }
                        }
                    }
                    assert forall|k: int| 0 <= k < s.len() implies start.contains(#[trigger] s[k])
                        || s[k] == e by {
                        let w = choose|w: int| 0 <= w < pre.len() && pre[w] == s[k];
                        assert(start.contains(pre[w]) || pre[w] == e);
                    }
                }
                i = parent;
            } else {
                break;
            }
        }
    }

    /// Removes and returns the first entry in queue order: no entry left
    /// comes before it.
    pub fn pop(&mut self) -> (r: Option<Entry>)
        requires
            old(self).wf(),
        ensures
            final(self).wf(),
            r is Some <==> old(self).view().len() > 0,
            r is Some ==> old(self).view().contains(r->0) && final(self).view().len()
                == old(self).view().len() - 1,
            r is Some ==> forall|k: int|
                0 <= k < old(self).view().len() ==> entry_le(r->0, #[trigger] old(self).view()[k]),
            r is None ==> final(self).view() == old(self).view(),
            r is Some ==> forall|x: Entry|
                #[trigger] old(self).view().contains(x) && x != r->0 ==> final(self).view().contains(x),
            forall|k: int|
                0 <= k < final(self).view().len() ==> old(self).view().contains(
                    #[trigger] final(self).view()[k],
                ),
    {
        let ghost start = self.items@;
        if self.items.len() == 0 {
            return None;
        }
        proof {
            assert forall|k: int| 0 <= k < start.len() implies entry_le(start[0], #[trigger] start[k]) by {
                lemma_root_first(start, k);
            }
        }
        let last = self.items.pop().unwrap();
        if self.items.len() == 0 {
            assert(start[0] == last);
            return Some(last);
        }
        let top = self.items[0];
        assert(start[0] == top);
        self.items.set(0, last);
        assert(start[start.len() - 1] == last);
        proof {
            assert forall|x: Entry| #[trigger] start.contains(x) && x != top implies self.items@.contains(x) by {
                let w = choose|w: int| 0 <= w < start.len() && start[w] == x;
                if w == start.len() - 1 {
                    assert(self.items@[0] == x);
                } else {
                    assert(self.items@[w] == x);
                }
            }
            assert forall|k: int| 0 <= k < self.items.len() implies start.contains(
                #[trigger] self.items@[k],
            ) by {
                if k != 0 {
                    assert(start[k] == self.items@[k]);
                }
            }
            assert forall|k: int| 0 < k < self.items.len() && (k - 1) / 2 != 0 implies entry_le(
                self.items@[(k - 1) / 2],
                #[trigger] self.items@[k],
            ) by {
                assert(self.items@[k] == start[k]);
                assert(self.items@[(k - 1) / 2] == start[(k - 1) / 2]);
            }
        }
        let n = self.items.len();
        let mut i: usize = 0;
        while i < n
            invariant
                n == self.items.len(),
                n == start.len() - 1,
                i < n,
                forall|k: int|
                    0 < k < n && (k - 1) / 2 != i ==> entry_le(
                        self.items@[(k - 1) / 2],
                        #[trigger] self.items@[k],
                    ),
                i > 0 ==> forall|k: int|
                    0 < k < n && (k - 1) / 2 == i ==> entry_le(
                        self.items@[(i - 1) / 2],
                        #[trigger] self.items@[k],
                    ),
                forall|k: int| 0 <= k < self.items.len() ==> start.contains(#[trigger] self.items@[k]),
                forall|x: Entry| #[trigger] start.contains(x) && x != top ==> self.items@.contains(x),
            ensures
                heap_ok(self.items@),
                n == self.items.len(),
                forall|k: int| 0 <= k < self.items.len() ==> start.contains(#[trigger] self.items@[k]),
                forall|x: Entry| #[trigger] start.contains(x) && x != top ==> self.items@.contains(x),
            decreases n - i,
        {
            let l = if i < (n - 1) / 2 + 1 {
                2 * i + 1
            } else {
                n
            };
            if l >= n {
                proof {
                    assert forall|k: int| 0 < k < n implies entry_le(
                        self.items@[(k - 1) / 2],
                        #[trigger] self.items@[k],
                    ) by {
                        if (k - 1) / 2 == i {
                            assert(k >= 2 * i + 1);
                        }
                    }
                }
                break;
            }
            let r = l + 1;
            let c = if r < n && before(self.items[r], self.items[l]) {
                r
            } else {
                l
            };
            if before(self.items[c], self.items[i]) {
                let ghost pre = self.items@;
                self.swap(i, c);
                proof {
                    let s = self.items@;
                    let ii = i as int;
                    let cc = c as int;
                    assert forall|k: int| 0 < k < n && (k - 1) / 2 != cc implies entry_le(
                        s[(k - 1) / 2],
                        #[trigger] s[k],
                    ) by {
                        if (k - 1) / 2 == ii {
                            assert(k == l || k == r);
                        } else if k == ii {
                            assert(entry_le(pre[(ii - 1) / 2], pre[cc]));
                        } else {
                            assert(s[k] == pre[k]);
                            assert(entry_le(pre[(k - 1) / 2], pre[k]));
                        }
                    }
                    assert forall|k: int| 0 < k < n && (k - 1) / 2 == cc implies entry_le(
                        s[(cc - 1) / 2],
                        #[trigger] s[k],
                    ) by {
                        assert(entry_le(pre[cc], pre[k]));
                    }
                    assert forall|k: int| 0 <= k < s.len() implies start.contains(#[trigger] s[k]) by {
                        let w = choose|w: int| 0 <= w < pre.len() && pre[w] == s[k];
                        assert(start.contains(pre[w]));
                    }
                }
                i = c;
            } else {
                proof {
                    assert forall|k: int| 0 < k < n implies entry_le(
                        self.items@[(k - 1) / 2],
                        #[trigger] self.items@[k],
                    ) by {
                        if (k - 1) / 2 == i {
                            assert(k == l || k == r);
                        }
                    }
                }
                break;
            }
        }
        Some(top)
    }
}

} // verus!
