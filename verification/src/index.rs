use vstd::prelude::*;

verus! {

/// One bucket view holds a token.
pub open spec fn bucket_contains(b: Seq<Seq<char>>, x: Seq<char>) -> bool {
    exists|j: int| 0 <= j < b.len() && b[j] == x
}

/// An inverted index: a mapping from a term to the bucket of record
/// identifiers carrying that term. Buckets reject duplicate identifiers,
/// hold at least one identifier (an emptied bucket is dropped at once), and
/// the empty term is never indexed.
pub struct TermIndex {
    pairs: Vec<(String, Vec<String>)>,
}

impl TermIndex {
    /// The number of distinct indexed terms.
    pub closed spec fn num_terms(self) -> nat {
        self.pairs@.len()
    }

    /// The term stored at position `i`.
    pub closed spec fn term_at(self, i: int) -> Seq<char> {
        self.pairs@[i].0@
    }

    /// The identifier bucket stored at position `i`.
    pub closed spec fn bucket_at(self, i: int) -> Seq<Seq<char>> {
        self.pairs@[i].1.deep_view()
    }

    /// Structural well-formedness: terms are distinct and non-empty, every
    /// bucket is non-empty, and no bucket lists an identifier twice.
    pub open spec fn wf(self) -> bool {
        &&& forall|i: int, j: int|
            0 <= i < j < self.num_terms() ==> self.term_at(i) != self.term_at(j)
        &&& forall|i: int| 0 <= i < self.num_terms() ==> (#[trigger] self.term_at(i)).len() > 0
        &&& forall|i: int| 0 <= i < self.num_terms() ==> (#[trigger] self.bucket_at(i)).len() > 0
        &&& forall|i: int, j1: int, j2: int|
            0 <= i < self.num_terms() && 0 <= j1 < j2 < self.bucket_at(i).len() ==> #[trigger] self.bucket_at(i)[j1] != #[trigger] self.bucket_at(i)[j2]
    }

    /// A term is indexed.
    pub open spec fn has_term(self, t: Seq<char>) -> bool {
        exists|i: int| 0 <= i < self.num_terms() && #[trigger] self.term_at(i) == t
    }

    /// The bucket for term `t` holds identifier `x`.
    pub open spec fn has(self, t: Seq<char>, x: Seq<char>) -> bool {
        exists|i: int|
            0 <= i < self.num_terms() && #[trigger] self.term_at(i) == t && bucket_contains(
                self.bucket_at(i),
                x,
            )
    }

    pub fn new() -> (r: TermIndex)
        ensures
            r.wf(),
            r.num_terms() == 0,
            forall|t: Seq<char>, x: Seq<char>| !r.has(t, x),
    {
        TermIndex { pairs: Vec::new() }
    }

    /// The position of `term`, if it is indexed.
    fn find_term(&self, term: &String) -> (r: Option<usize>)
        ensures
            match r {
                Some(i) => 0 <= i < self.num_terms() && self.term_at(i as int) == term@,
                None => !self.has_term(term@),
            },
    {
        let n = self.pairs.len();
        let mut i: usize = 0;
        while i < n
            invariant
                n == self.pairs@.len(),
                0 <= i <= n,
                forall|k: int| 0 <= k < i ==> self.term_at(k) != term@,
            decreases n - i,
        {
            if self.pairs[i].0 == *term {
                return Some(i);
            }
            i = i + 1;
        }
        None
    }

    /// Appends `id` to the bucket for `term`, creating the bucket if the
    /// term was not indexed; a duplicate identifier or an empty term changes
    /// nothing.
    pub fn insert(&mut self, term: String, id: String)
        requires
            old(self).wf(),
        ensures
            final(self).wf(),
            forall|t: Seq<char>, x: Seq<char>|
                final(self).has(t, x) <==> (old(self).has(t, x) || (term@.len() > 0 && t == term@
                    && x == id@)),
    {
        if term.as_str().is_empty() {
            return ;
        }
        let found = self.find_term(&term);
        match found {
            None => {
                let mut bucket: Vec<String> = Vec::new();
                bucket.push(id);
                self.pairs.push((term, bucket));
                proof {
                    let n = old(self).num_terms() as int;
                    assert(self.term_at(n) == term@);
                    assert(self.bucket_at(n) =~= seq![id@]);
                    assert(forall|k: int| 0 <= k < n ==> self.term_at(k) == old(self).term_at(k));
                    assert(forall|k: int|
                        0 <= k < n ==> self.bucket_at(k) == old(self).bucket_at(k));
                    assert(self.bucket_at(n)[0] == id@);
                    assert(bucket_contains(self.bucket_at(n), id@));
                    assert forall|k1: int, k2: int|
                        0 <= k1 < k2 < self.num_terms() implies self.term_at(k1) != self.term_at(
                        k2,
                    ) by {
                        if k2 == n {
                            assert(old(self).term_at(k1) != term@);
                        } else {
                            assert(old(self).term_at(k1) != old(self).term_at(k2));
                        }
                    }
                    assert forall|k: int|
                        0 <= k < self.num_terms() implies (#[trigger] self.term_at(k)).len()
                        > 0 by {
                        if k < n {
                            assert(old(self).term_at(k).len() > 0);
                        }
                    }
                    assert forall|k: int|
                        0 <= k < self.num_terms() implies (#[trigger] self.bucket_at(k)).len()
                        > 0 by {
                        if k < n {
                            assert(old(self).bucket_at(k).len() > 0);
                        }
                    }
                    assert forall|k: int, j1: int, j2: int|
                        0 <= k < self.num_terms() && 0 <= j1 < j2 < self.bucket_at(k).len()
                            implies self.bucket_at(k)[j1] != self.bucket_at(k)[j2] by {
                        if k < n {
                            assert(old(self).bucket_at(k)[j1] != old(self).bucket_at(k)[j2]);
                        }
                    }
                    assert(self.wf());
                    assert forall|t: Seq<char>, x: Seq<char>|
                        self.has(t, x) <==> (old(self).has(t, x) || (term@.len() > 0 && t == term@
                            && x == id@)) by {
                        if old(self).has(t, x) {
                            let i = choose|i: int|
                                0 <= i < old(self).num_terms() && #[trigger] old(self).term_at(i)
                                    == t && bucket_contains(old(self).bucket_at(i), x);
                            assert(self.term_at(i) == t);
                            assert(self.has(t, x));
                        }
                        if self.has(t, x) {
                            let i = choose|i: int|
                                0 <= i < self.num_terms() && #[trigger] self.term_at(i) == t
                                    && bucket_contains(self.bucket_at(i), x);
                            if i < n {
                                assert(old(self).has(t, x));
                            } else {
                                assert(t == term@ && x == id@);
                            }
                        }
                    }
                }
            },
            Some(i) => {
                let ghost orig = *self;
                let mut p = self.pairs.remove(i);
                let already = bucket_has(&p.1, &id);
                if !already {
                    p.1.push(id);
                }
                self.pairs.insert(i, p);
                proof {
                    let ii = i as int;
                    assert(orig == *old(self));
                    assert(orig.wf());
                    assert(self.pairs@ =~= orig.pairs@.update(ii, self.pairs@[ii]));
                    assert(self.num_terms() == orig.num_terms());
                    assert(forall|k: int|
                        0 <= k < self.num_terms() && k != ii ==> self.term_at(k) == orig.term_at(
                            k,
                        ) && self.bucket_at(k) == orig.bucket_at(k));
                    assert(self.term_at(ii) == term@);
                    assert(orig.term_at(ii) == term@);
                    if already {
                        assert(self.bucket_at(ii) == orig.bucket_at(ii));
                        assert(bucket_contains(orig.bucket_at(ii), id@));
                    } else {
                        assert(self.bucket_at(ii) =~= orig.bucket_at(ii).push(id@));
                        assert(!bucket_contains(orig.bucket_at(ii), id@));
                    }
                    assert forall|k1: int, k2: int|
                        0 <= k1 < k2 < self.num_terms() implies self.term_at(k1) != self.term_at(
                        k2,
                    ) by {
                        assert(self.term_at(k1) == orig.term_at(k1));
                        assert(self.term_at(k2) == orig.term_at(k2));
                        assert(orig.term_at(k1) != orig.term_at(k2));
                    }
                    assert forall|k: int|
                        0 <= k < self.num_terms() implies (#[trigger] self.term_at(k)).len()
                        > 0 by {
                        assert(self.term_at(k) == orig.term_at(k));
                        assert(orig.term_at(k).len() > 0);
                    }
                    assert forall|k: int|
                        0 <= k < self.num_terms() implies (#[trigger] self.bucket_at(k)).len()
                        > 0 by {
                        assert(orig.bucket_at(k).len() > 0);
                        if k == ii && !already {
                            assert(self.bucket_at(k).len() == orig.bucket_at(k).len() + 1);
                        }
                    }
                    assert forall|k: int, j1: int, j2: int|
                        0 <= k < self.num_terms() && 0 <= j1 < j2 < self.bucket_at(k).len()
                            implies self.bucket_at(k)[j1] != self.bucket_at(k)[j2] by {
                        if k != ii || already {
                            assert(orig.bucket_at(k)[j1] != orig.bucket_at(k)[j2]);
                        } else {
                            if j2 == orig.bucket_at(ii).len() as int {
                                assert(self.bucket_at(k)[j2] == id@);
                                assert(self.bucket_at(k)[j1] == orig.bucket_at(ii)[j1]);
                                if orig.bucket_at(ii)[j1] == id@ {
                                    assert(bucket_contains(orig.bucket_at(ii), id@));
                                }
                            } else {
                                assert(orig.bucket_at(k)[j1] != orig.bucket_at(k)[j2]);
                            }
                        }
                    }
                    assert(self.wf());
                    assert forall|t: Seq<char>, x: Seq<char>|
                        self.has(t, x) <==> (old(self).has(t, x) || (term@.len() > 0 && t == term@
                            && x == id@)) by {
                        assert(orig == *old(self));
                        if orig.has(t, x) {
                            let k = choose|k: int|
                                0 <= k < orig.num_terms() && #[trigger] orig.term_at(k) == t
                                    && bucket_contains(orig.bucket_at(k), x);
                            if k == ii {
                                let j = choose|j: int|
                                    0 <= j < orig.bucket_at(ii).len() && orig.bucket_at(ii)[j]
                                        == x;
                                assert(self.bucket_at(ii)[j] == x);
                                assert(self.has(t, x));
                            } else {
                                assert(self.has(t, x));
                            }
                        }
                        if t == term@ && x == id@ {
                            if already {
                                assert(self.has(t, x));
                            } else {
                                let bl = orig.bucket_at(ii).len() as int;
                                assert(self.bucket_at(ii)[bl] == id@);
                                assert(self.has(t, x));
                            }
                        }
                        if self.has(t, x) {
                            let k = choose|k: int|
                                0 <= k < self.num_terms() && #[trigger] self.term_at(k) == t
                                    && bucket_contains(self.bucket_at(k), x);
                            if k == ii {
                                let j = choose|j: int|
                                    0 <= j < self.bucket_at(ii).len() && self.bucket_at(ii)[j]
                                        == x;
                                if already || j < orig.bucket_at(ii).len() {
                                    assert(orig.bucket_at(ii)[j] == x);
                                    assert(orig.has(t, x));
                                } else {
                                    assert(x == id@);
                                }
                            } else {
                                assert(orig.term_at(k) == t && bucket_contains(
                                    orig.bucket_at(k),
                                    x,
                                ));
                                assert(orig.has(t, x));
                            }
                        }
                    }
                }
            },
        }
    }

    /// Deletes `id` from the bucket for `term`; a bucket emptied by the
    /// deletion is dropped entirely.
    pub fn remove(&mut self, term: &String, id: &String)
        requires
            old(self).wf(),
        ensures
            final(self).wf(),
            forall|t: Seq<char>, x: Seq<char>|
                final(self).has(t, x) <==> (old(self).has(t, x) && !(t == term@ && x == id@)),
    {
        let found = self.find_term(term);
        match found {
            None => {
                proof {
                    assert forall|t: Seq<char>, x: Seq<char>|
                        self.has(t, x) <==> (old(self).has(t, x) && !(t == term@ && x
                            == id@)) by {
                        if self.has(t, x) && t == term@ {
                            let k = choose|k: int|
                                0 <= k < self.num_terms() && #[trigger] self.term_at(k) == t
                                    && bucket_contains(self.bucket_at(k), x);
                            assert(self.has_term(term@));
                        }
                    }
                }
            },
            Some(i) => {
                let ghost orig = *self;
                let p = self.pairs.remove(i);
                proof {
                    assert(p.1.deep_view() == orig.bucket_at(i as int));
                    assert forall|j1: int, j2: int|
                        0 <= j1 < j2 < p.1.deep_view().len() implies p.1.deep_view()[j1]
                        != p.1.deep_view()[j2] by {
                        assert(orig.bucket_at(i as int)[j1] != orig.bucket_at(i as int)[j2]);
                    }
                }
                let nb = filter_out(&p.1, id);
                let ghost mid = *self;
                if nb.len() > 0 {
                    self.pairs.insert(i, (p.0, nb));
                }
                proof {
                    let ii = i as int;
                    assert(forall|k: int|
                        0 <= k < ii ==> mid.term_at(k) == orig.term_at(k) && mid.bucket_at(k)
                            == orig.bucket_at(k));
                    assert(forall|k: int|
                        ii <= k < mid.num_terms() ==> mid.term_at(k) == orig.term_at(k + 1)
                            && mid.bucket_at(k) == orig.bucket_at(k + 1));
                    if nb@.len() > 0 {
                        assert(self.pairs@ =~= orig.pairs@.update(ii, self.pairs@[ii]));
                        assert(self.num_terms() == orig.num_terms());
                        assert(forall|k: int|
                            0 <= k < self.num_terms() && k != ii ==> self.term_at(k)
                                == orig.term_at(k) && self.bucket_at(k) == orig.bucket_at(k));
                        assert(self.term_at(ii) == term@);
                        assert(self.bucket_at(ii) =~= nb.deep_view());
                    } else {
                        assert(self.num_terms() == orig.num_terms() - 1);
                        assert(forall|k: int|
                            0 <= k < ii ==> self.term_at(k) == orig.term_at(k) && self.bucket_at(
                                k,
                            ) == orig.bucket_at(k));
                        assert(forall|k: int|
                            ii <= k < self.num_terms() ==> self.term_at(k) == orig.term_at(k + 1)
                                && self.bucket_at(k) == orig.bucket_at(k + 1));
                    }
                    assert forall|k1: int, k2: int|
                        0 <= k1 < k2 < self.num_terms() implies self.term_at(k1) != self.term_at(
                        k2,
                    ) by {
                        let ghost ko1: int = if nb@.len() > 0 || k1 < ii {
                            k1
                        } else {
                            k1 + 1
                        };
                        let ghost ko2: int = if nb@.len() > 0 || k2 < ii {
                            k2
                        } else {
                            k2 + 1
                        };
                        assert(self.term_at(k1) == orig.term_at(ko1));
                        assert(self.term_at(k2) == orig.term_at(ko2));
                        assert(orig.term_at(ko1) != orig.term_at(ko2));
                    }
                    assert forall|k: int|
                        0 <= k < self.num_terms() implies (#[trigger] self.term_at(k)).len()
                        > 0 by {
                        let ghost ko: int = if nb@.len() > 0 || k < ii {
                            k
                        } else {
                            k + 1
                        };
                        if nb@.len() > 0 && k == ii {
                            assert(self.term_at(k) == orig.term_at(ii));
                            assert(orig.term_at(ii).len() > 0);
                        } else {
                            assert(self.term_at(k) == orig.term_at(ko));
                            assert(orig.term_at(ko).len() > 0);
                        }
                    }
                    assert forall|k: int|
                        0 <= k < self.num_terms() implies (#[trigger] self.bucket_at(k)).len()
                        > 0 by {
                        let ghost ko: int = if nb@.len() > 0 || k < ii {
                            k
                        } else {
                            k + 1
                        };
                        if nb@.len() > 0 && k == ii {
                            assert(self.bucket_at(k).len() == nb.deep_view().len());
                        } else {
                            assert(self.bucket_at(k) == orig.bucket_at(ko));
                            assert(orig.bucket_at(ko).len() > 0);
                        }
                    }
                    assert forall|k: int, j1: int, j2: int|
                        0 <= k < self.num_terms() && 0 <= j1 < j2 < self.bucket_at(k).len()
                            implies self.bucket_at(k)[j1] != self.bucket_at(k)[j2] by {
                        if nb@.len() > 0 && k == ii {
                            assert(self.bucket_at(k) == nb.deep_view());
                        } else {
                            let ghost ko: int = if nb@.len() > 0 || k < ii {
                                k
                            } else {
                                k + 1
                            };
                            assert(self.bucket_at(k) == orig.bucket_at(ko));
                            assert(orig.bucket_at(ko)[j1] != orig.bucket_at(ko)[j2]);
                        }
                    }
                    assert(self.wf());
                    assert forall|t: Seq<char>, x: Seq<char>|
                        self.has(t, x) <==> (orig.has(t, x) && !(t == term@ && x == id@)) by {
                        if self.has(t, x) {
                            let k = choose|k: int|
                                0 <= k < self.num_terms() && #[trigger] self.term_at(k) == t
                                    && bucket_contains(self.bucket_at(k), x);
                            if nb@.len() > 0 && k == ii {
                                assert(bucket_contains(nb.deep_view(), x));
                                assert(bucket_contains(orig.bucket_at(ii), x) && x != id@);
                                assert(orig.has(t, x));
                            } else {
                                let ghost ko: int = if nb@.len() > 0 || k < ii {
                                    k
                                } else {
                                    k + 1
                                };
                                assert(orig.term_at(ko) == t && bucket_contains(
                                    orig.bucket_at(ko),
                                    x,
                                ));
                                assert(orig.has(t, x));
                                assert(ko != ii);
                                assert(t != term@);
                            }
                        }
                        if orig.has(t, x) && !(t == term@ && x == id@) {
                            let k = choose|k: int|
                                0 <= k < orig.num_terms() && #[trigger] orig.term_at(k) == t
                                    && bucket_contains(orig.bucket_at(k), x);
                            if k == ii {
                                assert(x != id@);
                                assert(bucket_contains(nb.deep_view(), x));
                                assert(nb@.len() > 0);
                                assert(self.term_at(ii) == t);
                                assert(self.has(t, x));
                            } else {
                                let ghost kn: int = if nb@.len() > 0 || k < ii {
                                    k
                                } else {
                                    k - 1
                                };
                                assert(self.term_at(kn) == t && bucket_contains(
                                    self.bucket_at(kn),
                                    x,
                                ));
                                assert(self.has(t, x));
                            }
                        }
                    }
                }
            },
        }
    }

    /// The number of indexed terms.
    pub fn term_count(&self) -> (n: usize)
        ensures
            n == self.num_terms(),
    {
        self.pairs.len()
    }

    /// Every indexed term with the size of its bucket, in index order.
    pub fn dist(&self) -> (d: Vec<(String, usize)>)
        ensures
            d@.len() == self.num_terms(),
            forall|i: int|
                0 <= i < d@.len() ==> (#[trigger] d@[i]).0@ == self.term_at(i) && d@[i].1
                    == self.bucket_at(i).len(),
    {
        let n = self.pairs.len();
        let mut d: Vec<(String, usize)> = Vec::new();
        let mut i: usize = 0;
        while i < n
            invariant
                n == self.pairs@.len(),
                0 <= i <= n,
                d@.len() == i,
                forall|k: int|
                    0 <= k < i ==> (#[trigger] d@[k]).0@ == self.term_at(k) && d@[k].1
                        == self.bucket_at(k).len(),
            decreases n - i,
        {
            d.push((self.pairs[i].0.clone(), self.pairs[i].1.len()));
            i = i + 1;
        }
        d
    }

    /// The set of indexed terms.
    pub open spec fn term_set(self) -> Set<Seq<char>> {
        Set::new(|t: Seq<char>| self.has_term(t))
    }

    /// The set of identifiers in the bucket for `t`.
    pub open spec fn id_set(self, t: Seq<char>) -> Set<Seq<char>> {
        Set::new(|x: Seq<char>| self.has(t, x))
    }

    /// A well-formed index has exactly as many terms as its term set.
    pub proof fn lemma_term_set_len(self)
        requires
            self.wf(),
        ensures
            self.term_set().finite(),
            self.term_set().len() == self.num_terms(),
    {
        let ts = Seq::new(self.num_terms(), |i: int| self.term_at(i));
        assert(ts.no_duplicates());
        assert forall|t: Seq<char>| #[trigger] self.term_set().contains(t) implies ts.to_set().contains(
            t,
        ) by {
            let i = choose|i: int| 0 <= i < self.num_terms() && #[trigger] self.term_at(i) == t;
            assert(ts[i] == t);
        }
        assert forall|t: Seq<char>| #[trigger] ts.to_set().contains(t) implies self.term_set().contains(
            t,
        ) by {
            let i = choose|i: int| 0 <= i < ts.len() && ts[i] == t;
            assert(self.term_at(i) == t);
        }
        assert(self.term_set() =~= ts.to_set());
        ts.unique_seq_to_set();
    }

    /// In a well-formed index the bucket at position `i` lists exactly the
    /// identifiers of the bucket set of its term, each once.
    pub proof fn lemma_bucket_len(self, i: int)
        requires
            self.wf(),
            0 <= i < self.num_terms(),
        ensures
            self.id_set(self.term_at(i)).finite(),
            self.id_set(self.term_at(i)).len() == self.bucket_at(i).len(),
    {
        let t = self.term_at(i);
        let b = self.bucket_at(i);
        assert(b.no_duplicates());
        assert forall|x: Seq<char>| #[trigger] self.id_set(t).contains(x) implies b.to_set().contains(
            x,
        ) by {
            let k = choose|k: int|
                0 <= k < self.num_terms() && #[trigger] self.term_at(k) == t && bucket_contains(
                    self.bucket_at(k),
                    x,
                );
            assert(k == i);
            let j = choose|j: int| 0 <= j < b.len() && b[j] == x;
            assert(b[j] == x);
        }
        assert forall|x: Seq<char>| #[trigger] b.to_set().contains(x) implies self.id_set(t).contains(
            x,
        ) by {
            let j = choose|j: int| 0 <= j < b.len() && b[j] == x;
            assert(bucket_contains(b, x));
            assert(self.has(t, x));
        }
        assert(self.id_set(t) =~= b.to_set());
        b.unique_seq_to_set();
    }
}

/// The bucket holds the identifier.
fn bucket_has(v: &Vec<String>, id: &String) -> (r: bool)
    ensures
        r == bucket_contains(v.deep_view(), id@),
{
    let n = v.len();
    let mut i: usize = 0;
    while i < n
        invariant
            n == v@.len(),
            0 <= i <= n,
            forall|k: int| 0 <= k < i ==> v.deep_view()[k] != id@,
        decreases n - i,
    {
        if v[i] == *id {
            assert(v.deep_view()[i as int] == id@);
            return true;
        }
        i = i + 1;
    }
    false
}

/// A copy of the bucket without `id`, keeping the order and distinctness of
/// what stays.
fn filter_out(v: &Vec<String>, id: &String) -> (r: Vec<String>)
    requires
        forall|j1: int, j2: int|
            0 <= j1 < j2 < v.deep_view().len() ==> v.deep_view()[j1] != v.deep_view()[j2],
    ensures
        forall|x: Seq<char>|
            bucket_contains(r.deep_view(), x) <==> (bucket_contains(v.deep_view(), x) && x
                != id@),
        forall|j1: int, j2: int|
            0 <= j1 < j2 < r.deep_view().len() ==> r.deep_view()[j1] != r.deep_view()[j2],
{
    let n = v.len();
    let mut r: Vec<String> = Vec::new();
    let mut i: usize = 0;
    while i < n
        invariant
            n == v@.len(),
            0 <= i <= n,
            forall|j1: int, j2: int|
                0 <= j1 < j2 < v.deep_view().len() ==> v.deep_view()[j1] != v.deep_view()[j2],
            forall|x: Seq<char>|
                bucket_contains(r.deep_view(), x) <==> (bucket_contains(
                    v.deep_view().subrange(0, i as int),
                    x,
                ) && x != id@),
            forall|j1: int, j2: int|
                0 <= j1 < j2 < r.deep_view().len() ==> r.deep_view()[j1] != r.deep_view()[j2],
        decreases n - i,
    {
        let ghost prev = r.deep_view();
        let ghost vd = v.deep_view();
        let keep = !(v[i] == *id);
        if keep {
            r.push(v[i].clone());
        }
        proof {
            let rd = r.deep_view();
            if keep {
                assert(rd =~= prev.push(vd[i as int]));
                assert(vd[i as int] != id@);
            } else {
                assert(rd == prev);
                assert(vd[i as int] == id@);
            }
            assert forall|j1: int, j2: int|
                0 <= j1 < j2 < rd.len() implies rd[j1] != rd[j2] by {
                if j2 == prev.len() as int {
                    assert(rd[j2] == vd[i as int]);
                    assert(bucket_contains(prev, prev[j1]));
                    let k = choose|k: int|
                        0 <= k < vd.subrange(0, i as int).len() && vd.subrange(0, i as int)[k]
                            == prev[j1];
                    assert(vd[k] == prev[j1]);
                    assert(vd[k] != vd[i as int]);
                }
            }
            assert forall|x: Seq<char>|
                bucket_contains(rd, x) <==> (bucket_contains(vd.subrange(0, (i + 1) as int), x)
                    && x != id@) by {
                if bucket_contains(rd, x) {
                    let j = choose|j: int| 0 <= j < rd.len() && rd[j] == x;
                    if j < prev.len() {
                        assert(prev[j] == x);
                        assert(bucket_contains(prev, x));
                        let k = choose|k: int|
                            0 <= k < vd.subrange(0, i as int).len() && vd.subrange(
                                0,
                                i as int,
                            )[k] == x;
                        assert(vd.subrange(0, (i + 1) as int)[k] == x);
                        assert(bucket_contains(vd.subrange(0, (i + 1) as int), x));
                        assert(x != id@);
                    } else {
                        assert(x == vd[i as int]);
                        assert(x != id@);
                        assert(vd.subrange(0, (i + 1) as int)[i as int] == x);
                        assert(bucket_contains(vd.subrange(0, (i + 1) as int), x));
                    }
                }
                if bucket_contains(vd.subrange(0, (i + 1) as int), x) && x != id@ {
                    let j = choose|j: int|
                        0 <= j < vd.subrange(0, (i + 1) as int).len() && #[trigger] vd.subrange(
                            0,
                            (i + 1) as int,
                        )[j] == x;
                    if j < i {
                        assert(vd.subrange(0, i as int)[j] == x);
                        assert(bucket_contains(vd.subrange(0, i as int), x));
                        assert(bucket_contains(prev, x));
                        let k = choose|k: int| 0 <= k < prev.len() && prev[k] == x;
                        assert(rd[k] == x);
                        assert(bucket_contains(rd, x));
                    } else {
                        assert(x == vd[i as int]);
                        assert(keep);
                        assert(rd[prev.len() as int] == x);
                        assert(bucket_contains(rd, x));
                    }
                }
            }
        }
        i = i + 1;
    }
    proof {
        assert(v.deep_view().subrange(0, n as int) =~= v.deep_view());
    }
    r
}


} // verus!
