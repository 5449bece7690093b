use vstd::prelude::*;

verus! {

/// All positions of `codes` that hold `key`, in increasing order. This is
/// the index list that the bucket of `key` must carry.
pub open spec fn indices_of(codes: Seq<Seq<char>>, key: Seq<char>) -> Seq<int>
    decreases codes.len(),
{
    if codes.len() == 0 {
        Seq::empty()
    } else if codes.last() == key {
        indices_of(codes.drop_last(), key).push(codes.len() - 1)
    } else {
        indices_of(codes.drop_last(), key)
    }
}

/// A sequence of machine-word positions, as mathematical integers.
pub open spec fn indices_as_ints(ix: Seq<usize>) -> Seq<int> {
    ix.map_values(|x: usize| x as int)
}

/// One bucket: a hash code and the input positions whose vectors hashed to
/// it, in input order.
pub struct Bucket {
    pub code: String,
    pub indices: Vec<usize>,
}

/// The bucket aggregation index: a mapping from hash code to the positions
/// sharing it, one entry per distinct code, in first-occurrence order.
pub struct BucketMap {
    pub buckets: Vec<Bucket>,
}

impl BucketMap {
    /// The code of bucket `j`, as a character sequence.
    pub open spec fn bucket_code(&self, j: int) -> Seq<char> {
        self.buckets@[j].code@
    }

    /// The index list of bucket `j`, as mathematical integers.
    pub open spec fn bucket_indices(&self, j: int) -> Seq<int> {
        indices_as_ints(self.buckets@[j].indices@)
    }

    /// Some bucket carries the code `k`.
    pub open spec fn has_bucket_for(&self, k: Seq<char>) -> bool {
        exists|j: int| 0 <= j < self.buckets@.len() && self.bucket_code(j) == k
    }

    /// What it means to be the bucketing of `codes`: every bucket carries
    /// exactly the positions of its code in input order, no two buckets share
    /// a code, and every input code has a bucket.
    pub open spec fn is_bucketing_of(&self, codes: Seq<Seq<char>>) -> bool {
        &&& forall|j: int|
            0 <= j < self.buckets@.len() ==> #[trigger] self.bucket_indices(j) == indices_of(
                codes,
                self.bucket_code(j),
            )
        &&& forall|j1: int, j2: int|
            0 <= j1 < j2 < self.buckets@.len() ==> self.bucket_code(j1) != self.bucket_code(j2)
        &&& forall|j: int|
            0 <= j < self.buckets@.len() ==> codes.contains(#[trigger] self.bucket_code(j))
        &&& forall|i: int| 0 <= i < codes.len() ==> self.has_bucket_for(#[trigger] codes[i])
    }

    /// Number of distinct hash codes seen.
    pub fn num_buckets(&self) -> (n: usize)
        ensures
            n == self.buckets@.len(),
    {
        self.buckets.len()
    }

    /// The index list bucketed under `code`, if that code occurred.
    pub fn get_bucket<'a>(&'a self, code: &String) -> (r: Option<&'a Vec<usize>>)
        ensures
            (r is Some) <==> exists|j: int|
                0 <= j < self.buckets@.len() && self.bucket_code(j) == code@,
            r matches Some(ix) ==> exists|j: int|
                0 <= j < self.buckets@.len() && self.bucket_code(j) == code@ && ix@
                    == self.buckets@[j].indices@,
    {
        let n = self.buckets.len();
        let mut j: usize = 0;
        while j < n
            invariant
                n == self.buckets@.len(),
                j <= n,
                forall|jj: int| 0 <= jj < j ==> self.bucket_code(jj) != code@,
            decreases n - j,
        {
            if self.buckets[j].code == *code {
                proof {
                    assert(self.bucket_code(j as int) == code@);
                }
                return Some(&self.buckets[j].indices);
            }
            j = j + 1;
        }
        None
    }
}

/// Some bucket in the sequence carries the code `k`.
spec fn seq_has_code(bs: Seq<Bucket>, k: Seq<char>) -> bool {
    exists|j: int| 0 <= j < bs.len() && bs[j].code@ == k
}

/// `indices_of(codes, key)` grows by exactly the position `i` when the code
/// at `i` is `key`, and is unchanged by position `i` otherwise.
proof fn lemma_indices_of_step(codes: Seq<Seq<char>>, i: int, key: Seq<char>)
    requires
        0 <= i < codes.len(),
    ensures
        codes[i] == key ==> indices_of(codes.take(i + 1), key) == indices_of(
            codes.take(i),
            key,
        ).push(i),
        codes[i] != key ==> indices_of(codes.take(i + 1), key) == indices_of(codes.take(i), key),
{
    assert(codes.take(i + 1).drop_last() =~= codes.take(i));
    assert(codes.take(i + 1).last() == codes[i]);
}

/// Membership in `indices_of(codes, key)` is exactly: a position of `codes`
/// holding `key`.
proof fn lemma_indices_of_members(codes: Seq<Seq<char>>, key: Seq<char>)
    ensures
        forall|x: int|
            #[trigger] indices_of(codes, key).contains(x) <==> (0 <= x < codes.len() && codes[x]
                == key),
    decreases codes.len(),
{
    if codes.len() == 0 {
    } else {
        let prev = codes.drop_last();
        lemma_indices_of_members(prev, key);
        let sp = indices_of(prev, key);
        let s = indices_of(codes, key);
        assert forall|x: int| #[trigger] s.contains(x) implies (0 <= x < codes.len() && codes[x]
            == key) by {
            let idx = choose|idx: int| 0 <= idx < s.len() && s[idx] == x;
            if codes.last() == key {
                if idx < sp.len() {
                    assert(sp.contains(x));
                    assert(prev[x] == codes[x]);
                } else {
                    assert(x == codes.len() - 1);
                }
            } else {
                assert(sp.contains(x));
                assert(prev[x] == codes[x]);
            }
        }
        assert forall|x: int| (0 <= x < codes.len() && codes[x] == key) implies #[trigger] s
            .contains(x) by {
            if x < codes.len() - 1 {
                assert(prev[x] == codes[x]);
                assert(sp.contains(x));
                let idx = choose|idx: int| 0 <= idx < sp.len() && sp[idx] == x;
                assert(s[idx] == x);
                assert(s.contains(x));
            } else {
                assert(codes.last() == key);
                assert(s[s.len() - 1] == x);
                assert(s.contains(x));
            }
        }
    }
}

/// The index list of any key is strictly increasing.
proof fn lemma_indices_of_sorted(codes: Seq<Seq<char>>, key: Seq<char>)
    ensures
        forall|j1: int, j2: int|
            0 <= j1 < j2 < indices_of(codes, key).len() ==> #[trigger] indices_of(codes, key)[j1]
                < #[trigger] indices_of(codes, key)[j2],
        forall|j: int|
            0 <= j < indices_of(codes, key).len() ==> 0 <= #[trigger] indices_of(codes, key)[j]
                < codes.len(),
    decreases codes.len(),
{
    if codes.len() > 0 {
        let prev = codes.drop_last();
        lemma_indices_of_sorted(prev, key);
        let sp = indices_of(prev, key);
        let s = indices_of(codes, key);
        if codes.last() == key {
            assert(s == sp.push(codes.len() - 1));
            assert forall|j: int| 0 <= j < s.len() implies 0 <= #[trigger] s[j] < codes.len() by {
                if j < sp.len() {
                    assert(s[j] == sp[j]);
                } else {
                    assert(s[j] == codes.len() - 1);
                }
            }
            assert forall|j1: int, j2: int| 0 <= j1 < j2 < s.len() implies #[trigger] s[j1]
                < #[trigger] s[j2] by {
                if j2 < sp.len() {
                    assert(s[j1] == sp[j1] && s[j2] == sp[j2]);
                } else {
                    assert(s[j1] == sp[j1] && sp[j1] < prev.len());
                    assert(s[j2] == codes.len() - 1);
                }
            }
        } else {
            assert(s == sp);
            assert forall|j: int| 0 <= j < s.len() implies 0 <= #[trigger] s[j] < codes.len() by {
                assert(s[j] == sp[j]);
            }
            assert forall|j1: int, j2: int| 0 <= j1 < j2 < s.len() implies #[trigger] s[j1]
                < #[trigger] s[j2] by {
                assert(s[j1] == sp[j1] && s[j2] == sp[j2]);
            }
        }
    }
}

/// Law: bucketing is complete. Every input position appears in the index
/// list of its own code; an index list holds only positions that carry its
/// key; and index lists are strictly increasing, so no position is listed
/// twice. Together: the lists of all buckets cover {0, ..., N-1} with each
/// position appearing exactly once.
pub proof fn lemma_bucket_completeness(codes: Seq<Seq<char>>)
    ensures
        forall|i: int|
            0 <= i < codes.len() ==> #[trigger] indices_of(codes, codes[i]).contains(i),
        forall|k: Seq<char>, i: int|
            #[trigger] indices_of(codes, k).contains(i) ==> 0 <= i < codes.len() && codes[i] == k,
        forall|k: Seq<char>, j1: int, j2: int|
            0 <= j1 < j2 < indices_of(codes, k).len() ==> #[trigger] indices_of(codes, k)[j1]
                < #[trigger] indices_of(codes, k)[j2],
{
    assert forall|i: int| 0 <= i < codes.len() implies #[trigger] indices_of(
        codes,
        codes[i],
    ).contains(i) by {
        lemma_indices_of_members(codes, codes[i]);
    }
    assert forall|k: Seq<char>, i: int| #[trigger] indices_of(codes, k).contains(i) implies 0 <= i
        < codes.len() && codes[i] == k by {
        lemma_indices_of_members(codes, k);
    }
    assert forall|k: Seq<char>, j1: int, j2: int|
        0 <= j1 < j2 < indices_of(codes, k).len() implies #[trigger] indices_of(codes, k)[j1]
        < #[trigger] indices_of(codes, k)[j2] by {
        lemma_indices_of_sorted(codes, k);
    }
}

/// Law: two positions land in the same bucket if and only if their codes are
/// character-for-character equal.
pub proof fn lemma_bucket_grouping(codes: Seq<Seq<char>>, i: int, j: int)
    requires
        0 <= i < codes.len(),
        0 <= j < codes.len(),
    ensures
        indices_of(codes, codes[i]).contains(j) <==> codes[i] == codes[j],
{
    lemma_indices_of_members(codes, codes[i]);
}

/// Groups hash codes by equality: position `i` is appended to the bucket of
/// `codes[i]`, a new bucket being opened at the first occurrence of a code.
/// Order within a bucket is input order; no position is dropped or listed
/// twice. Any sequence of strings is valid input; the empty one yields an
/// empty map.
pub fn bucket_hashes(v: Vec<String>) -> (r: BucketMap)
    ensures
        r.is_bucketing_of(v.deep_view()),
{
    let ghost codes: Seq<Seq<char>> = v.deep_view();
    let mut buckets: Vec<Bucket> = Vec::new();
    let mut i: usize = 0;
    proof {
        assert(codes.len() == v@.len());
    }
    while i < v.len()
        invariant
            codes == v.deep_view(),
            codes.len() == v@.len(),
            forall|ii: int| 0 <= ii < codes.len() ==> #[trigger] codes[ii] == v@[ii]@,
            i <= v@.len(),
            forall|j: int|
                0 <= j < buckets@.len() ==> #[trigger] indices_as_ints(buckets@[j].indices@)
                    == indices_of(codes.take(i as int), buckets@[j].code@),
            forall|j1: int, j2: int|
                0 <= j1 < j2 < buckets@.len() ==> buckets@[j1].code@ != buckets@[j2].code@,
            forall|j: int|
                0 <= j < buckets@.len() ==> codes.take(i as int).contains(
                    #[trigger] buckets@[j].code@,
                ),
            forall|ii: int| 0 <= ii < i ==> seq_has_code(buckets@, #[trigger] codes[ii]),
        decreases v@.len() - i,
    {
        let n = buckets.len();
        let mut j: usize = 0;
        let mut pos: usize = n;
        while j < n
            invariant
                n == buckets@.len(),
                j <= n,
                i < v@.len(),
                pos == n || (pos < j && buckets@[pos as int].code@ == v@[i as int]@),
                pos == n ==> forall|jj: int| 0 <= jj < j ==> buckets@[jj].code@ != v@[i as int]@,
            decreases n - j,
        {
            if pos == n && buckets[j].code == v[i] {
                pos = j;
            }
            j = j + 1;
        }
        proof {
            assert(codes[i as int] == v@[i as int]@);
        }
        let ghost prev = buckets@;
        if pos < n {
            buckets[pos].indices.push(i);
            proof {
                assert(buckets@ =~= prev.update(
                    pos as int,
                    Bucket { code: prev[pos as int].code, indices: buckets@[pos as int].indices },
                ));
                assert(buckets@[pos as int].indices@ == prev[pos as int].indices@.push(i));
                assert forall|jj: int|
                    0 <= jj < buckets@.len() implies #[trigger] indices_as_ints(
                    buckets@[jj].indices@,
                ) == indices_of(codes.take(i + 1), buckets@[jj].code@) by {
                    lemma_indices_of_step(codes, i as int, buckets@[jj].code@);
                    assert(indices_as_ints(prev[jj].indices@) == indices_of(
                        codes.take(i as int),
                        prev[jj].code@,
                    ));
                    if jj == pos {
                        assert(indices_as_ints(buckets@[jj].indices@) =~= indices_as_ints(
                            prev[jj].indices@,
                        ).push(i as int));
                    } else {
                        assert(buckets@[jj] == prev[jj]);
                        assert(buckets@[jj].code@ != codes[i as int]);
                    }
                }
                assert forall|ii: int| 0 <= ii < i + 1 implies seq_has_code(
                    buckets@,
                    #[trigger] codes[ii],
                ) by {
                    if ii == i {
                        assert(buckets@[pos as int].code@ == codes[ii]);
                    } else {
                        assert(seq_has_code(prev, codes[ii]));
                        let jw = choose|jw: int|
                            0 <= jw < prev.len() && prev[jw].code@ == codes[ii];
                        assert(buckets@[jw].code@ == codes[ii]);
                    }
                }
            }
        } else {
            let mut ix: Vec<usize> = Vec::new();
            ix.push(i);
            let code = v[i].clone();
            buckets.push(Bucket { code, indices: ix });
            proof {
                assert(buckets@ == prev.push(buckets@[prev.len() as int]));
                assert(buckets@[prev.len() as int].code@ == codes[i as int]);
                assert(buckets@[prev.len() as int].indices@ == seq![i]);
                assert forall|jj: int|
                    0 <= jj < buckets@.len() implies #[trigger] indices_as_ints(
                    buckets@[jj].indices@,
                ) == indices_of(codes.take(i + 1), buckets@[jj].code@) by {
                    lemma_indices_of_step(codes, i as int, buckets@[jj].code@);
                    if jj == buckets@.len() - 1 {
                        lemma_indices_of_members(codes.take(i as int), buckets@[jj].code@);
                        assert(indices_of(codes.take(i as int), buckets@[jj].code@).len() == 0) by {
                            let s = indices_of(codes.take(i as int), buckets@[jj].code@);
                            if s.len() > 0 {
                                assert(s.contains(s[0]));
                                assert(codes.take(i as int).contains(buckets@[jj].code@));
                                let w = choose|w: int|
                                    0 <= w < i && codes.take(i as int)[w] == buckets@[jj].code@;
                                assert(buckets@[jj].code@ == codes[w]);
                                assert(exists|jx: int|
                                    0 <= jx < prev.len() && prev[jx].code@ == codes[w]);
                                assert(false);
                            }
                        }
                        assert(indices_as_ints(buckets@[jj].indices@) =~= Seq::<int>::empty().push(
                            i as int,
                        ));
                    } else {
                        assert(buckets@[jj] == prev[jj]);
                        assert(indices_as_ints(prev[jj].indices@) == indices_of(
                            codes.take(i as int),
                            prev[jj].code@,
                        ));
                        assert(buckets@[jj].code@ != codes[i as int]);
                    }
                }
                assert forall|ii: int| 0 <= ii < i + 1 implies seq_has_code(
                    buckets@,
                    #[trigger] codes[ii],
                ) by {
                    if ii == i {
                        assert(buckets@[prev.len() as int].code@ == codes[ii]);
                    } else {
                        assert(seq_has_code(prev, codes[ii]));
                        let jw = choose|jw: int|
                            0 <= jw < prev.len() && prev[jw].code@ == codes[ii];
                        assert(buckets@[jw].code@ == codes[ii]);
                    }
                }
                assert forall|j1: int, j2: int|
                    0 <= j1 < j2 < buckets@.len() implies buckets@[j1].code@
                    != buckets@[j2].code@ by {
                    if j2 == buckets@.len() - 1 {
                        assert(prev[j1].code@ != v@[i as int]@);
                    }
                }
            }
        }
        proof {
            assert forall|j2: int|
                0 <= j2 < buckets@.len() implies codes.take(i + 1).contains(
                #[trigger] buckets@[j2].code@,
            ) by {
                if buckets@[j2].code@ == codes[i as int] {
                    assert(codes.take(i + 1)[i as int] == codes[i as int]);
                } else {
                    assert(buckets@[j2] == prev[j2]);
                    assert(codes.take(i as int).contains(buckets@[j2].code@));
                    let w = choose|w: int|
                        0 <= w < i && codes.take(i as int)[w] == buckets@[j2].code@;
                    assert(codes.take(i + 1)[w] == buckets@[j2].code@);
                }
            }
        }
        i = i + 1;
    }
    proof {
        assert(codes.take(codes.len() as int) =~= codes);
    }
    let r = BucketMap { buckets };
    proof {
        assert forall|j: int| 0 <= j < r.buckets@.len() implies #[trigger] r.bucket_indices(j)
            == indices_of(codes, r.bucket_code(j)) by {
            assert(indices_as_ints(r.buckets@[j].indices@) == indices_of(
                codes,
                r.buckets@[j].code@,
            ));
        }
        assert forall|ii: int| 0 <= ii < codes.len() implies r.has_bucket_for(
            #[trigger] codes[ii],
        ) by {
            assert(seq_has_code(r.buckets@, codes[ii]));
            let jw = choose|jw: int|
                0 <= jw < r.buckets@.len() && r.buckets@[jw].code@ == codes[ii];
            assert(r.bucket_code(jw) == codes[ii]);
        }
        assert(r.is_bucketing_of(codes));
    }
    r
}

} // verus!
