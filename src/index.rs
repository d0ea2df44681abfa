use vstd::prelude::*;

use crate::order::{bytes_less, key_lt, lemma_bytes_lt_irreflexive, lemma_bytes_lt_transitive, lemma_key_lt_total};

verus! {

/// Where the latest record of a key lies: its generation's file, its first
/// byte there, and its length.
#[derive(Clone, Copy, Debug, PartialEq, Eq)]
pub struct CommandPos {
    pub generation: u64,
    pub pos: u64,
    pub len: u64,
}

/// Total length of a run of records.
pub open spec fn total_len(ps: Seq<CommandPos>) -> nat
    decreases ps.len(),
{
    if ps.len() == 0 {
        0
    } else {
        total_len(ps.drop_last()) + ps.last().len as nat
    }
}

/// The records of `ps` copied one after another, from the start of the file
/// of `generation`, in the same order.
pub open spec fn relocated(ps: Seq<CommandPos>, generation: u64, moved: Seq<CommandPos>) -> bool {
    &&& moved.len() == ps.len()
    &&& forall|i: int|
        0 <= i < ps.len() ==> #[trigger] moved[i] == CommandPos {
            generation,
            pos: total_len(ps.take(i)) as u64,
            len: ps[i].len,
        }
}

/// `keys` (without repeats) and `layout` list the entries of `m` in one
/// order: the `i`-th key lies at the `i`-th place.
pub open spec fn consistent(m: Map<Seq<char>, CommandPos>, keys: Seq<Seq<char>>, layout: Seq<
    CommandPos,
>) -> bool {
    &&& keys.len() == layout.len()
    &&& forall|i: int, j: int| 0 <= i < j < keys.len() ==> keys[i] != keys[j]
    &&& forall|i: int| 0 <= i < keys.len() ==> m.contains_key(#[trigger] keys[i]) && m[keys[i]] == layout[i]
    &&& forall|k: Seq<char>| #[trigger] m.contains_key(k) ==> exists|i: int| 0 <= i < keys.len() && keys[i] == k
}

proof fn lemma_total_len_grows(ps: Seq<CommandPos>, i: int)
    requires
        0 <= i <= ps.len(),
    ensures
        total_len(ps.take(i)) <= total_len(ps),
    decreases ps.len(),
{
    if i < ps.len() {
        assert(ps.drop_last().take(i) == ps.take(i));
        lemma_total_len_grows(ps.drop_last(), i);
    } else {
        assert(ps.take(i) == ps);
    }
}

/// Map from each key that the store holds to the place of its latest
/// record, its keys kept in ascending order.
pub struct Index {
    keys: Vec<String>,
    positions: Vec<CommandPos>,
    map: Ghost<Map<Seq<char>, CommandPos>>,
}

impl View for Index {
    type V = Map<Seq<char>, CommandPos>;

    closed spec fn view(&self) -> Self::V {
        self.map@
    }
}

impl Index {
    /// The keys, in ascending order: the order in which compaction copies
    /// their records.
    pub closed spec fn key_order(&self) -> Seq<Seq<char>> {
        self.keys@.map_values(|k: String| k@)
    }

    /// The places of the records, in the order of `key_order`.
    pub closed spec fn layout(&self) -> Seq<CommandPos> {
        self.positions@
    }

    pub closed spec fn wf(&self) -> bool {
        &&& self.keys@.len() == self.positions@.len()
        &&& forall|i: int, j: int|
            0 <= i < j < self.keys@.len() ==> (#[trigger] self.keys@[i])@ != (#[trigger] self.keys@[j])@
        &&& forall|i: int, j: int|
            0 <= i < j < self.keys@.len() ==> key_lt((#[trigger] self.keys@[i])@, (#[trigger] self.keys@[j])@)
        &&& forall|i: int|
            0 <= i < self.keys@.len() ==> self.map@.contains_key((#[trigger] self.keys@[i])@)
                && self.map@[self.keys@[i]@] == self.positions@[i]
        &&& forall|k: Seq<char>| #[trigger]
            self.map@.contains_key(k) ==> exists|i: int|
                0 <= i < self.keys@.len() && (#[trigger] self.keys@[i])@ == k
    }

    pub proof fn lemma_consistent(&self)
        requires
            self.wf(),
        ensures
            consistent(self@, self.key_order(), self.layout()),
    {
        assert forall|k: Seq<char>| #[trigger] self@.contains_key(k) implies exists|i: int|
            0 <= i < self.key_order().len() && self.key_order()[i] == k by {
            let i = choose|i: int| 0 <= i < self.keys@.len() && (#[trigger] self.keys@[i])@ == k;
            assert(self.key_order()[i] == k);
        }
    }

    pub fn new() -> (r: Self)
        ensures
            r.wf(),
            r@ == Map::<Seq<char>, CommandPos>::empty(),
    {
        Index { keys: Vec::new(), positions: Vec::new(), map: Ghost(Map::empty()) }
    }

    /// Binary search: `Ok` with the place of `key`, or `Err` with the place
    /// where it would go.
    fn search(&self, key: &String) -> (r: Result<usize, usize>)
        requires
            self.wf(),
        ensures
            r matches Ok(i) ==> i < self.keys@.len() && self.keys@[i as int]@ == key@,
            r matches Err(p) ==> {
                &&& !self@.contains_key(key@)
                &&& p <= self.keys@.len()
                &&& forall|j: int| 0 <= j < p ==> key_lt((#[trigger] self.keys@[j])@, key@)
                &&& forall|j: int| p <= j < self.keys@.len() ==> key_lt(key@, (#[trigger] self.keys@[j])@)
            },
    {
        let kb = key.as_str().as_bytes();
        let mut lo: usize = 0;
        let mut hi: usize = self.keys.len();
        while lo < hi
            invariant
                self.wf(),
                kb@ == vstd::utf8::encode_utf8(key@),
                0 <= lo <= hi <= self.keys@.len(),
                forall|j: int| 0 <= j < lo ==> key_lt((#[trigger] self.keys@[j])@, key@),
                forall|j: int| hi <= j < self.keys@.len() ==> key_lt(key@, (#[trigger] self.keys@[j])@),
            decreases hi - lo,
        {
            let mid = lo + (hi - lo) / 2;
            if self.keys[mid].eq(key) {
                return Ok(mid);
            }
            let ghost m = self.keys@[mid as int]@;
            if bytes_less(self.keys[mid].as_str().as_bytes(), kb) {
                proof {
                    assert forall|j: int| 0 <= j <= mid implies key_lt((#[trigger] self.keys@[j])@, key@) by {
                        if j < mid {
                            assert(key_lt(self.keys@[j]@, m));
                            lemma_bytes_lt_transitive(
                                vstd::utf8::encode_utf8(self.keys@[j]@),
                                vstd::utf8::encode_utf8(m),
                                vstd::utf8::encode_utf8(key@),
                            );
                        }
                    }
                }
                lo = mid + 1;
            } else {
                proof {
                    lemma_key_lt_total(m, key@);
                    assert forall|j: int| mid <= j < self.keys@.len() implies key_lt(key@, (#[trigger] self.keys@[j])@) by {
                        if j > mid {
                            assert(key_lt(m, self.keys@[j]@));
                            lemma_bytes_lt_transitive(
                                vstd::utf8::encode_utf8(key@),
                                vstd::utf8::encode_utf8(m),
                                vstd::utf8::encode_utf8(self.keys@[j]@),
                            );
                        }
                    }
                }
                hi = mid;
            }
        }
        proof {
            if self@.contains_key(key@) {
                let j = choose|j: int| 0 <= j < self.keys@.len() && (#[trigger] self.keys@[j])@ == key@;
                if j < lo {
                    assert(key_lt(key@, key@));
                } else {
                    assert(key_lt(key@, key@));
                }
                lemma_bytes_lt_irreflexive(vstd::utf8::encode_utf8(key@));
            }
        }
        Err(lo)
    }

    fn find(&self, key: &String) -> (r: Option<usize>)
        requires
            self.wf(),
        ensures
            r matches Some(i) ==> i < self.keys@.len() && self.keys@[i as int]@ == key@,
            r is None ==> !self@.contains_key(key@),
    {
        match self.search(key) {
            Ok(i) => Some(i),
            Err(_) => None,
        }
    }

    /// Place of the latest record of `key`, if the store holds it.
    pub fn get(&self, key: &String) -> (r: Option<CommandPos>)
        requires
            self.wf(),
        ensures
            r == (if self@.contains_key(key@) {
                Some(self@[key@])
            } else {
                None::<CommandPos>
            }),
    {
        match self.find(key) {
            Some(i) => Some(self.positions[i]),
            None => None,
        }
    }

    /// Points `key` at `pos`; returns the place it pointed at before.
    pub fn insert(&mut self, key: String, pos: CommandPos) -> (r: Option<CommandPos>)
        requires
            old(self).wf(),
        ensures
            final(self).wf(),
            final(self)@ == old(self)@.insert(key@, pos),
            r == (if old(self)@.contains_key(key@) {
                Some(old(self)@[key@])
            } else {
                None::<CommandPos>
            }),
    {
        match self.search(&key) {
            Ok(i) => {
                let prev = self.positions[i];
                self.positions[i] = pos;
                self.map = Ghost(self.map@.insert(key@, pos));
                proof {
                    assert forall|k: Seq<char>| #[trigger]
                        self.map@.contains_key(k) implies exists|j: int|
                        0 <= j < self.keys@.len() && (#[trigger] self.keys@[j])@ == k by {
                        if k == key@ {
                            assert(self.keys@[i as int]@ == k);
                        } else {
                            assert(old(self).map@.contains_key(k));
                            let j = choose|j: int|
                                0 <= j < old(self).keys@.len() && (#[trigger] old(
                                    self,
                                ).keys@[j])@ == k;
                            assert(self.keys@[j]@ == k);
                        }
                    }
                }
                Some(prev)
            },
            Err(p) => {
                let ghost k0 = key@;
                let ghost ok = self.keys@;
                let ghost op = self.positions@;
                self.keys.insert(p, key);
                self.positions.insert(p, pos);
                self.map = Ghost(self.map@.insert(k0, pos));
                proof {
                    let nk = self.keys@;
                    assert(nk == ok.insert(p as int, nk[p as int]));
                    assert(nk[p as int]@ == k0);
                    assert forall|a: int, b: int|
                        0 <= a < b < nk.len() implies key_lt((#[trigger] nk[a])@, (#[trigger] nk[b])@) by {
                        if a < p && b > p {
                            assert(nk[b] == ok[b - 1]);
                            assert(nk[a] == ok[a]);
                        } else if a == p && b > p {
                            assert(nk[b] == ok[b - 1]);
                            if b - 1 > p {
                                assert(key_lt(ok[p as int]@, ok[b - 1]@));
                                lemma_bytes_lt_transitive(
                                    vstd::utf8::encode_utf8(k0),
                                    vstd::utf8::encode_utf8(ok[p as int]@),
                                    vstd::utf8::encode_utf8(ok[b - 1]@),
                                );
                            }
                        } else if a > p {
                            assert(nk[a] == ok[a - 1]);
                            assert(nk[b] == ok[b - 1]);
                        } else if b < p {
                            assert(nk[a] == ok[a]);
                            assert(nk[b] == ok[b]);
                        } else {
                            assert(nk[a] == ok[a]);
                        }
                    }
                    assert forall|a: int, b: int|
                        0 <= a < b < nk.len() implies (#[trigger] nk[a])@ != (#[trigger] nk[b])@ by {
                        assert(key_lt(nk[a]@, nk[b]@));
                        if nk[a]@ == nk[b]@ {
                            lemma_bytes_lt_irreflexive(vstd::utf8::encode_utf8(nk[a]@));
                        }
                    }
                    assert forall|a: int|
                        0 <= a < nk.len() implies self.map@.contains_key((#[trigger] nk[a])@)
                        && self.map@[nk[a]@] == self.positions@[a] by {
                        if a < p {
                            assert(nk[a] == ok[a]);
                            assert(self.positions@[a] == op[a]);
                        } else if a > p {
                            assert(nk[a] == ok[a - 1]);
                            assert(self.positions@[a] == op[a - 1]);
                        }
                    }
                    assert forall|k: Seq<char>| #[trigger]
                        self.map@.contains_key(k) implies exists|j: int|
                        0 <= j < nk.len() && (#[trigger] nk[j])@ == k by {
                        if k != k0 {
                            assert(old(self).map@.contains_key(k));
                            let j = choose|j: int| 0 <= j < ok.len() && (#[trigger] ok[j])@ == k;
                            if j < p {
                                assert(nk[j] == ok[j]);
                            } else {
                                assert(nk[j + 1] == ok[j]);
                            }
                        } else {
                            assert(nk[p as int]@ == k);
                        }
                    }
                }
                None
            },
        }
    }

    /// Forgets `key`; returns the place it pointed at.
    pub fn remove(&mut self, key: &String) -> (r: Option<CommandPos>)
        requires
            old(self).wf(),
        ensures
            final(self).wf(),
            final(self)@ == old(self)@.remove(key@),
            r == (if old(self)@.contains_key(key@) {
                Some(old(self)@[key@])
            } else {
                None::<CommandPos>
            }),
    {
        match self.find(key) {
            Some(i) => {
                let ghost ok = self.keys@;
                let ghost op = self.positions@;
                let _gone = self.keys.remove(i);
                let prev = self.positions.remove(i);
                self.map = Ghost(self.map@.remove(key@));
                proof {
                    assert forall|a: int|
                        0 <= a < self.keys@.len() implies self.map@.contains_key(
                        (#[trigger] self.keys@[a])@,
                    ) && self.map@[self.keys@[a]@] == self.positions@[a] by {
                        if a < i {
                            assert(self.keys@[a] == ok[a]);
                        } else {
                            assert(self.keys@[a] == ok[a + 1]);
                            assert(ok[a + 1]@ != ok[i as int]@);
                        }
                    }
                    assert forall|a: int, b: int|
                        0 <= a < b < self.keys@.len() implies (#[trigger] self.keys@[a])@
                        != (#[trigger] self.keys@[b])@ && key_lt(self.keys@[a]@, self.keys@[b]@) by {
                        let oa = if a < i { a } else { a + 1 };
                        let ob = if b < i { b } else { b + 1 };
                        assert(self.keys@[a] == ok[oa]);
                        assert(self.keys@[b] == ok[ob]);
                    }
                    assert forall|k: Seq<char>| #[trigger]
                        self.map@.contains_key(k) implies exists|j: int|
                        0 <= j < self.keys@.len() && (#[trigger] self.keys@[j])@ == k by {
                        let j = choose|j: int| 0 <= j < ok.len() && (#[trigger] ok[j])@ == k;
                        assert(j != i);
                        if j < i {
                            assert(self.keys@[j]@ == k);
                        } else {
                            assert(self.keys@[j - 1]@ == k);
                        }
                    }
                }
                Some(prev)
            },
            None => {
                assert(self.map@.remove(key@) =~= self.map@);
                None
            },
        }
    }

    /// The places of all records, in the order of `key_order`.
    pub fn layout_vec(&self) -> (r: Vec<CommandPos>)
        ensures
            r@ == self.layout(),
    {
        let mut out: Vec<CommandPos> = Vec::new();
        let mut i: usize = 0;
        while i < self.positions.len()
            invariant
                0 <= i <= self.positions@.len(),
                out@ == self.positions@.take(i as int),
            decreases self.positions@.len() - i,
        {
            out.push(self.positions[i]);
            i = i + 1;
            assert(out@ == self.positions@.take(i as int));
        }
        assert(self.positions@.take(i as int) == self.positions@);
        out
    }

    /// Points every key at a copy of its record in the file of `generation`,
    /// the copies following each other in key order from the file's first
    /// byte. Returns `false`, and changes nothing, when the records together
    /// are longer than a file offset can express.
    pub fn relocate(&mut self, generation: u64) -> (r: bool)
        requires
            old(self).wf(),
        ensures
            final(self).wf(),
            r <==> total_len(old(self).layout()) <= u64::MAX,
            r ==> relocated(old(self).layout(), generation, final(self).layout()),
            final(self).key_order() == old(self).key_order(),
            final(self)@.dom() == old(self)@.dom(),
            r ==> forall|k: Seq<char>| #[trigger]
                final(self)@.contains_key(k) ==> final(self)@[k].generation == generation
                    && final(self)@[k].len == old(self)@[k].len,
            !r ==> final(self)@ == old(self)@ && final(self).layout() == old(self).layout(),
    {
        let ghost ps = self.positions@;
        let mut total: u64 = 0;
        let mut i: usize = 0;
        while i < self.positions.len()
            invariant
                self.positions@ == ps,
                self.wf(),
                self.keys@ == old(self).keys@,
                self.map@ == old(self).map@,
                0 <= i <= ps.len(),
                total == total_len(ps.take(i as int)),
            decreases ps.len() - i,
        {
            let len = self.positions[i].len;
            assert(ps.take(i as int + 1).drop_last() == ps.take(i as int));
            if total > u64::MAX - len {
                proof {
                    lemma_total_len_grows(ps, i as int + 1);
                }
                return false;
            }
            total = total + len;
            i = i + 1;
        }
        assert(ps.take(i as int) == ps);
        let ghost old_map = self.map@;
        let mut acc: u64 = 0;
        let mut i: usize = 0;
        while i < self.positions.len()
            invariant
                self.keys@ == old(self).keys@,
                self.positions@.len() == ps.len(),
                old(self).wf(),
                old(self).positions@ == ps,
                old(self).map@ == old_map,
                total == total_len(ps),
                0 <= i <= ps.len(),
                acc == total_len(ps.take(i as int)),
                self.map@.dom() == old_map.dom(),
                forall|j: int| 0 <= j < ps.len() ==> self.map@[self.keys@[j]@] == #[trigger] self.positions@[j],
                forall|j: int| i <= j < ps.len() ==> #[trigger] self.positions@[j] == ps[j],
                forall|j: int|
                    0 <= j < i ==> #[trigger] self.positions@[j] == (CommandPos {
                        generation,
                        pos: total_len(ps.take(j)) as u64,
                        len: ps[j].len,
                    }),
            decreases ps.len() - i,
        {
            let len = self.positions[i].len;
            let moved = CommandPos { generation, pos: acc, len };
            proof {
                assert(ps.take(i as int + 1).drop_last() == ps.take(i as int));
                lemma_total_len_grows(ps, i as int + 1);
            }
            self.positions[i] = moved;
            let ghost k = self.keys@[i as int]@;
            self.map = Ghost(self.map@.insert(k, moved));
            proof {
                assert(self.map@.dom() =~= old_map.dom());
                assert forall|j: int| 0 <= j < ps.len() implies self.map@[self.keys@[j]@]
                    == #[trigger] self.positions@[j] by {
                    if j != i {
                        assert(self.keys@[j]@ != k);
                    }
                }
            }
            acc = acc + len;
            i = i + 1;
        }
        proof {
            assert(self.key_order() =~= old(self).key_order());
            assert forall|k: Seq<char>| #[trigger] self.map@.contains_key(k) implies exists|j: int|
                0 <= j < self.keys@.len() && (#[trigger] self.keys@[j])@ == k by {
                assert(old_map.contains_key(k));
            }
            assert forall|k: Seq<char>| #[trigger]
                self.map@.contains_key(k) implies self.map@[k].generation == generation
                && self.map@[k].len == old_map[k].len by {
                assert(old_map.contains_key(k));
                let j = choose|j: int| 0 <= j < self.keys@.len() && (#[trigger] self.keys@[j])@ == k;
                assert(old(self).keys@[j]@ == k);
                assert(old_map[k] == ps[j]);
                assert(self.map@[self.keys@[j]@] == self.positions@[j]);
                assert(self.positions@[j].len == ps[j].len);
            }
        }
        true
    }
}

} // verus!
