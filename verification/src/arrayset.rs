//! An ordered set of integers backed by an array of sorted arrays: slot `i`
//! holds either nothing or a sorted run of exactly `2^i` elements, and an
//! insertion merges runs like binary addition carries.
use vstd::prelude::*;

use vstd::arithmetic::power2::pow2;
use vstd::assert_multisets_equal;
use vstd::multiset::Multiset;

verus! {

broadcast use vstd::std_specs::vec::group_vec_axioms, vstd::multiset::group_multiset_axioms,
    vstd::seq_lib::group_to_multiset_ensures;

/// Strict ascending order: no duplicates, every pair ordered.
pub open spec fn sorted_strict(v: Seq<u64>) -> bool {
    forall|a: int, b: int| 0 <= a < b < v.len() ==> v[a] < v[b]
}

/// All the elements held in the slots `vs[k..]`, as a multiset.
pub open spec fn msum(vs: Seq<Vec<u64>>, k: int) -> Multiset<u64>
    decreases vs.len() - k,
{
    if k < 0 || k >= vs.len() {
        Multiset::empty()
    } else {
        vs[k]@.to_multiset().add(msum(vs, k + 1))
    }
}

/// A set of `u64` values stored as an array of sorted runs whose lengths
/// are powers of two.
pub struct BinaryArraySet {
    values: Vec<Vec<u64>>,
    size: usize,
}

impl View for BinaryArraySet {
    type V = Multiset<u64>;

    closed spec fn view(&self) -> Multiset<u64> {
        msum(self.values@, 0)
    }
}

impl BinaryArraySet {
    /// The shape that `check_structure` decides: run `k` is empty or holds
    /// exactly `2^k` elements in strictly ascending order, and the recorded
    /// size matches the total number of elements.
    pub closed spec fn shape_ok(self) -> bool {
        &&& forall|k: int|
            0 <= k < self.values@.len() ==> (#[trigger] self.values@[k])@.len() == 0
                || self.values@[k]@.len() == pow2(k as nat)
        &&& forall|k: int|
            0 <= k < self.values@.len() ==> sorted_strict((#[trigger] self.values@[k])@)
        &&& msum(self.values@, 0).len() == self.size
    }

    /// The full invariant: the shape above, and no element stored twice —
    /// the container is a set.
    pub closed spec fn inv(self) -> bool {
        &&& self.shape_ok()
        &&& forall|x: u64| msum(self.values@, 0).count(x) <= 1
    }

    /// Creates an empty set.
    pub fn new() -> (s: Self)
        ensures
            s.inv(),
            s@ == Multiset::<u64>::empty(),
    {
        let s = Self { values: Vec::new(), size: 0 };
        proof {
            assert(s@ =~= Multiset::<u64>::empty());
        }
        s
    }

    /// True exactly when the set holds no element. Runs in constant time.
    pub fn is_empty(&self) -> (r: bool)
        requires
            self.inv(),
        ensures
            r == (self@.len() == 0),
    {
        self.size == 0
    }

    /// The number of elements held. Runs in constant time.
    pub fn len(&self) -> (r: usize)
        requires
            self.inv(),
        ensures
            r == self@.len(),
    {
        self.size
    }

    /// Removes every element.
    pub fn clear(&mut self)
        ensures
            final(self).inv(),
            final(self)@ == Multiset::<u64>::empty(),
    {
        self.values.clear();
        self.size = 0;
        proof {
            assert(self@ =~= Multiset::<u64>::empty());
        }
    }

    /// True exactly when `val` is in the set, by binary search within each
    /// run.
    #[verifier::loop_isolation(false)]
    pub fn contains(&self, val: u64) -> (r: bool)
        requires
            self.inv(),
        ensures
            r == self@.contains(val),
    {
        let n = self.values.len();
        let mut k: usize = 0;
        while k < n
            invariant
                0 <= k <= n,
                self@.count(val) == msum(self.values@, k as int).count(val),
            decreases n - k,
        {
            if find_sorted(&self.values[k], val) {
                proof {
                    assert(self.values@[k as int]@.to_multiset().count(val) > 0);
                }
                return true;
            }
            proof {
                assert(self.values@[k as int]@.to_multiset().count(val) == 0);
            }
            k = k + 1;
        }
        false
    }

    /// Inserts `val` unless it is already present; true exactly when the
    /// set grew.
    pub fn insert(&mut self, val: u64) -> (r: bool)
        requires
            old(self).inv(),
            old(self)@.contains(val) || old(self)@.len() < usize::MAX,
        ensures
            final(self).inv(),
            r == !old(self)@.contains(val),
            final(self)@ == (if r {
                old(self)@.insert(val)
            } else {
                old(self)@
            }),
    {
        let result = !self.contains(val);
        if result {
            self.insert_unique(val);
        }
        result
    }

    /// Inserts an element known not to be present, merging runs of equal
    /// length until a free slot takes the carried run.
    #[verifier::loop_isolation(false)]
    pub fn insert_unique(&mut self, val: u64)
        requires
            old(self).inv(),
            !old(self)@.contains(val),
            old(self)@.len() < usize::MAX,
        ensures
            final(self).inv(),
            final(self)@ == old(self)@.insert(val),
    {
        proof {
            assert(old(self)@.insert(val).len() == old(self)@.len() + 1);
            assert(forall|x: u64| old(self)@.insert(val).count(x) <= 1);
        }
        self.size = self.size + 1;
        let mut toput: Vec<u64> = Vec::new();
        toput.push(val);
        proof {
            assert(toput@ =~= seq![val]);
            assert(toput@.to_multiset() =~= Multiset::<u64>::empty().insert(val));
            assert(toput@.to_multiset().add(msum(self.values@, 0)) =~= old(self)@.insert(val));
            assert(pow2(0) == 1) by {
                vstd::arithmetic::power2::lemma2_to64();
            }
        }
        let mut i: usize = 0;
        while i < self.values.len()
            invariant
                0 <= i <= self.values@.len(),
                self.values@.len() == old(self).values@.len(),
                self.size == old(self).size + 1,
                toput@.len() == pow2(i as nat),
                sorted_strict(toput@),
                toput@.to_multiset().add(msum(self.values@, 0)) == old(self)@.insert(val),
                forall|k: int|
                    0 <= k < self.values@.len() ==> (#[trigger] self.values@[k])@.len() == 0
                        || self.values@[k]@.len() == pow2(k as nat),
                forall|k: int|
                    0 <= k < self.values@.len() ==> sorted_strict(
                        (#[trigger] self.values@[k])@,
                    ),
            decreases self.values@.len() - i,
        {
            let ghost vs = self.values@;
            if self.values[i].len() == 0 {
                proof {
                    lemma_msum_update(vs, 0, i as int, toput);
                    lemma_to_multiset_empty(vs[i as int]@);
                    assert(msum(vs.update(i as int, toput), 0) =~= msum(vs, 0).add(
                        toput@.to_multiset(),
                    ));
                    assert(msum(vs.update(i as int, toput), 0) =~= old(self)@.insert(val));
                }
                self.values.set(i, toput);
                proof {
                    assert(self@ == old(self)@.insert(val));
                    assert(self@.len() == self.size);
                }
                return ;
            }
            let ghost total = old(self)@.insert(val);
            proof {
                // the run at slot i and the carried run share no element:
                // together they count inside a multiset whose counts are 1
                assert forall|a: int, b: int|
                    0 <= a < vs[i as int]@.len() && 0 <= b < toput@.len() implies vs[i as int]@[a]
                    != toput@[b] by {
                    let x = vs[i as int]@[a];
                    if toput@[b] == x {
                        assert(vs[i as int]@.contains(x));
                        assert(toput@.contains(x));
                        assert(vs[i as int]@.to_multiset().count(x) > 0);
                        assert(toput@.to_multiset().count(x) > 0);
                        lemma_msum_count(vs, 0, i as int, x);
                        assert(total.count(x) >= 2);
                    }
                }
                lemma_msum_len_bound(vs, 0, i as int);
                assert(vs[i as int]@.len() + toput@.len() <= usize::MAX);
            }
            let merged = merge_sorted(&self.values[i], &toput);
            let empty_run: Vec<u64> = Vec::new();
            proof {
                lemma_msum_update(vs, 0, i as int, empty_run);
                lemma_to_multiset_empty(empty_run@);
                assert(msum(vs.update(i as int, empty_run), 0).add(
                    vs[i as int]@.to_multiset(),
                ) =~= msum(vs, 0));
                assert(merged@.to_multiset().add(msum(vs.update(i as int, empty_run), 0))
                    =~= toput@.to_multiset().add(msum(vs, 0)));
                assert(pow2(i as nat) + pow2(i as nat) == pow2(i as nat + 1)) by {
                    vstd::arithmetic::power2::lemma_pow2_unfold(i as nat + 1);
                }
            }
            self.values.set(i, empty_run);
            toput = merged;
            i = i + 1;
        }
        proof {
            lemma_msum_push(self.values@, 0, toput);
        }
        self.values.push(toput);
        proof {
            assert(self@ =~= old(self)@.insert(val));
            assert(self@.len() == self.size);
        }
    }

    /// Every set maintained through this interface passes
    /// [`Self::check_structure`]: the full invariant implies the shape it
    /// decides.
    pub proof fn lemma_inv_shape(self)
        requires
            self.inv(),
        ensures
            self.shape_ok(),
    {
    }

    /// Re-examines the stored runs and reports whether they have the shape
    /// this container promises: power-of-two run lengths, strict order
    /// within each run, and a size counter equal to the element count.
    #[verifier::loop_isolation(false)]
    pub fn check_structure(&self) -> (ok: bool)
        ensures
            ok == self.shape_ok(),
    {
        let n = self.values.len();
        let mut k: usize = 0;
        let mut lengths_ok = true;
        let mut sorted_ok = true;
        let mut sum: u128 = 0;
        while k < n
            invariant
                0 <= k <= n,
                lengths_ok <==> (forall|j: int|
                    0 <= j < k ==> (#[trigger] self.values@[j])@.len() == 0 || self.values@[j]@.len()
                        == pow2(j as nat)),
                sorted_ok <==> (forall|j: int|
                    0 <= j < k ==> sorted_strict((#[trigger] self.values@[j])@)),
                msum(self.values@, 0).len() == sum + msum(self.values@, k as int).len(),
                sum <= k * (usize::MAX as u128),
            decreases n - k,
        {
            let v = &self.values[k];
            let len = v.len();
            if len != 0 {
                if k >= 64 {
                    proof {
                        vstd::arithmetic::power2::lemma2_to64();
                        if k > 64 {
                            vstd::arithmetic::power2::lemma_pow2_strictly_increases(64, k as nat);
                        }
                        assert(pow2(k as nat) > usize::MAX);
                    }
                    lengths_ok = false;
                } else {
                    let p: u64 = 1u64 << (k as u64);
                    proof {
                        vstd::bits::lemma_u64_pow2_no_overflow(k as nat);
                        vstd::bits::lemma_u64_shl_is_mul(1u64, k as u64);
                    }
                    if (len as u64) != p {
                        lengths_ok = false;
                    }
                }
            }
            if !is_sorted_strict(v) {
                sorted_ok = false;
            }
            proof {
                assert(msum(self.values@, k as int) == self.values@[k as int]@.to_multiset().add(
                    msum(self.values@, k as int + 1),
                ));
                assert(self.values@[k as int]@.to_multiset().len() == len);
                assert(sum + len <= (k + 1) * (usize::MAX as u128) && sum + len
                    <= u128::MAX) by (nonlinear_arith)
                    requires
                        sum <= k * (usize::MAX as u128),
                        0 <= len <= usize::MAX as u128,
                        0 <= k as u128 <= 0xFFFFFFFFFFFFFFFFu128,
                        usize::MAX as u128 <= 0xFFFFFFFFFFFFFFFFu128,
                ;
            }
            sum = sum + (len as u128);
            k = k + 1;
        }
        proof {
            assert(msum(self.values@, n as int) =~= Multiset::<u64>::empty());
        }
        lengths_ok && sorted_ok && sum == (self.size as u128)
    }
}

/// All the elements held in the slots `vs[k..]`, in storage order.
pub open spec fn cseq(vs: Seq<Vec<u64>>, k: int) -> Seq<u64>
    decreases vs.len() - k,
{
    if k < 0 || k >= vs.len() {
        Seq::empty()
    } else {
        vs[k]@ + cseq(vs, k + 1)
    }
}

/// The concatenated slots hold exactly the summed multiset.
proof fn lemma_cseq_msum(vs: Seq<Vec<u64>>, k: int)
    ensures
        cseq(vs, k).to_multiset() == msum(vs, k),
    decreases vs.len() - k,
{
    if k < 0 || k >= vs.len() {
        lemma_to_multiset_empty(cseq(vs, k));
        assert(cseq(vs, k).to_multiset() =~= msum(vs, k));
    } else {
        lemma_cseq_msum(vs, k + 1);
        vstd::seq_lib::lemma_multiset_commutative(vs[k]@, cseq(vs, k + 1));
    }
}

/// The elements a cursor standing at slot `index`, offset `subindex`, has
/// yet to visit.
pub open spec fn rem_at(vs: Seq<Vec<u64>>, index: int, subindex: int) -> Seq<u64> {
    if 0 <= index < vs.len() {
        vs[index]@.skip(subindex) + cseq(vs, index + 1)
    } else {
        Seq::empty()
    }
}

/// A cursor over the elements of a [`BinaryArraySet`], yielding each slot
/// in storage order and each slot's elements in ascending order.
pub struct Iter<'a> {
    values: &'a Vec<Vec<u64>>,
    index: usize,
    subindex: usize,
    count: usize,
}

impl<'a> Iter<'a> {
    /// The elements not yet yielded, in the order they will come.
    pub closed spec fn remaining(self) -> Seq<u64> {
        rem_at(self.values@, self.index as int, self.subindex as int)
    }

    /// The cursor stands on a real element, or past the end with nothing
    /// left, and its counter matches what remains.
    pub closed spec fn wf_iter(self) -> bool {
        &&& self.index <= self.values@.len()
        &&& self.index < self.values@.len() ==> self.subindex
            < self.values@[self.index as int]@.len()
        &&& self.count == self.remaining().len()
    }

    /// Starts an iteration over `set`, positioned on its first element.
    #[verifier::loop_isolation(false)]
    pub fn new(set: &'a BinaryArraySet) -> (it: Iter<'a>)
        requires
            set.inv(),
        ensures
            it.wf_iter(),
            it.remaining().to_multiset() == set@,
            it.remaining().len() == set@.len(),
    {
        let ghost vs = set.values@;
        let mut idx: usize = 0;
        while idx < set.values.len() && set.values[idx].len() == 0
            invariant
                0 <= idx <= vs.len(),
                cseq(vs, idx as int) == cseq(vs, 0),
            decreases vs.len() - idx,
        {
            proof {
                assert(cseq(vs, idx as int) =~= cseq(vs, idx as int + 1));
            }
            idx = idx + 1;
        }
        let it = Iter { values: &set.values, index: idx, subindex: 0, count: set.size };
        proof {
            lemma_cseq_msum(vs, 0);
            cseq(vs, 0).to_multiset_ensures();
            assert(it.remaining() =~= cseq(vs, 0));
        }
        it
    }

    /// How many elements are still to come.
    pub fn remaining_len(&self) -> (r: usize)
        requires
            self.wf_iter(),
        ensures
            r == self.remaining().len(),
    {
        self.count
    }

    /// Yields the next element, or `None` once every element has come.
    #[verifier::loop_isolation(false)]
    pub fn next(&mut self) -> (r: Option<u64>)
        requires
            old(self).wf_iter(),
        ensures
            final(self).wf_iter(),
            old(self).remaining().len() == 0 ==> r is None && final(self).remaining()
                == old(self).remaining(),
            old(self).remaining().len() > 0 ==> r == Some(old(self).remaining()[0])
                && final(self).remaining() == old(self).remaining().skip(1),
    {
        let ghost vs = self.values@;
        if self.index >= self.values.len() {
            return None;
        }
        let result = self.values[self.index][self.subindex];
        proof {
            assert(old(self).remaining()[0] == result);
            assert(rem_at(vs, self.index as int, self.subindex as int + 1)
                =~= old(self).remaining().skip(1));
        }
        let cur_len: usize = self.values[self.index].len();
        proof {
            assert(self.subindex < cur_len);
        }
        self.subindex = self.subindex + 1;
        while self.index < self.values.len() && self.subindex >= self.values[self.index].len()
            invariant
                self.values == old(self).values,
                self.count == old(self).count,
                0 <= self.index <= vs.len(),
                self.index < vs.len() ==> self.subindex <= vs[self.index as int]@.len(),
                self.remaining() == old(self).remaining().skip(1),
            decreases vs.len() - self.index,
        {
            proof {
                assert(vs[self.index as int]@.skip(self.subindex as int)
                    =~= Seq::<u64>::empty());
                assert(rem_at(vs, self.index as int, self.subindex as int) =~= rem_at(
                    vs,
                    self.index as int + 1,
                    0,
                ));
            }
            self.subindex = 0;
            self.index = self.index + 1;
        }
        self.count = self.count - 1;
        Some(result)
    }
}

/// An empty sequence has an empty multiset.
proof fn lemma_to_multiset_empty(s: Seq<u64>)
    requires
        s.len() == 0,
    ensures
        s.to_multiset() =~= Multiset::<u64>::empty(),
{
    s.to_multiset_ensures();
    assert(forall|x: u64| s.to_multiset().count(x) == 0);
}

/// Updating one slot exchanges its contribution for the new run's.
proof fn lemma_msum_update(vs: Seq<Vec<u64>>, k: int, i: int, t: Vec<u64>)
    requires
        0 <= k <= i < vs.len(),
    ensures
        msum(vs.update(i, t), k).add(vs[i]@.to_multiset()) == msum(vs, k).add(t@.to_multiset()),
    decreases i - k,
{
    if k == i {
        lemma_msum_untouched(vs, k + 1, i, t);
        assert(vs.update(i, t)[k] == t);
        assert(msum(vs.update(i, t), k).add(vs[i]@.to_multiset()) =~= msum(vs, k).add(
            t@.to_multiset(),
        ));
    } else {
        lemma_msum_update(vs, k + 1, i, t);
        assert(vs.update(i, t)[k] == vs[k]);
        assert_multisets_equal!(
            msum(vs.update(i, t), k).add(vs[i]@.to_multiset()),
            msum(vs, k).add(t@.to_multiset()),
            x => {
                assert((vs[k]@.to_multiset().add(msum(vs.update(i, t), k + 1))).count(x) == vs[k]@.to_multiset().count(x) + msum(vs.update(i, t), k + 1).count(x));
                assert((vs[k]@.to_multiset().add(msum(vs, k + 1))).count(x) == vs[k]@.to_multiset().count(x) + msum(vs, k + 1).count(x));
                assert((msum(vs.update(i, t), k + 1).add(vs[i]@.to_multiset())).count(x) == (msum(
                    vs,
                    k + 1,
                ).add(t@.to_multiset())).count(x));
            }
        );
    }
}

/// Slots before the updated one contribute as before.
proof fn lemma_msum_untouched(vs: Seq<Vec<u64>>, k: int, i: int, t: Vec<u64>)
    requires
        0 <= i < k,
        i < vs.len(),
    ensures
        msum(vs.update(i, t), k) == msum(vs, k),
    decreases vs.len() - k,
{
    if k < vs.len() {
        assert(vs.update(i, t)[k] == vs[k]);
        lemma_msum_untouched(vs, k + 1, i, t);
        assert(msum(vs.update(i, t), k) =~= msum(vs, k));
    } else {
        assert(msum(vs.update(i, t), k) =~= msum(vs, k));
    }
}

/// Appending a slot adds its contents.
proof fn lemma_msum_push(vs: Seq<Vec<u64>>, k: int, t: Vec<u64>)
    requires
        0 <= k <= vs.len(),
    ensures
        msum(vs.push(t), k) == msum(vs, k).add(t@.to_multiset()),
    decreases vs.len() - k,
{
    if k == vs.len() {
        assert(vs.push(t)[k] == t);
        assert(vs.push(t).len() == k + 1);
        assert(msum(vs.push(t), k + 1) =~= Multiset::<u64>::empty());
        assert(msum(vs, k) =~= Multiset::<u64>::empty());
        assert_multisets_equal!(
            msum(vs.push(t), k),
            msum(vs, k).add(t@.to_multiset()),
            x => {
                assert((t@.to_multiset().add(msum(vs.push(t), k + 1))).count(x)
                    == t@.to_multiset().count(x) + msum(vs.push(t), k + 1).count(x));
                assert((msum(vs, k).add(t@.to_multiset())).count(x) == msum(vs, k).count(x)
                    + t@.to_multiset().count(x));
            }
        );
    } else {
        assert(vs.push(t)[k] == vs[k]);
        lemma_msum_push(vs, k + 1, t);
        assert_multisets_equal!(
            msum(vs.push(t), k),
            msum(vs, k).add(t@.to_multiset()),
            x => {
                assert((vs[k]@.to_multiset().add(msum(vs.push(t), k + 1))).count(x) == vs[k]@.to_multiset().count(x) + msum(vs.push(t), k + 1).count(x));
                assert((vs[k]@.to_multiset().add(msum(vs, k + 1))).count(x) == vs[k]@.to_multiset().count(x) + msum(vs, k + 1).count(x));
                assert((msum(vs, k + 1).add(t@.to_multiset())).count(x) == msum(vs, k + 1).count(
                    x,
                ) + t@.to_multiset().count(x));
            }
        );
    }
}

/// The whole sum counts any one slot's elements at least as often.
proof fn lemma_msum_count(vs: Seq<Vec<u64>>, k: int, i: int, x: u64)
    requires
        0 <= k <= i < vs.len(),
    ensures
        msum(vs, k).count(x) >= vs[i]@.to_multiset().count(x),
    decreases i - k,
{
    if k < i {
        lemma_msum_count(vs, k + 1, i, x);
    }
}

/// The whole sum holds at least any one slot's elements.
proof fn lemma_msum_len_bound(vs: Seq<Vec<u64>>, k: int, i: int)
    requires
        0 <= k <= i < vs.len(),
    ensures
        msum(vs, k).len() >= vs[i]@.len(),
    decreases i - k,
{
    if k < i {
        lemma_msum_len_bound(vs, k + 1, i);
    } else {
        assert(vs[i]@.to_multiset().len() == vs[i]@.len());
    }
}

/// Binary search in a strictly sorted run.
#[verifier::loop_isolation(false)]
fn find_sorted(v: &Vec<u64>, val: u64) -> (r: bool)
    requires
        sorted_strict(v@),
    ensures
        r == v@.contains(val),
{
    let mut lo: usize = 0;
    let mut hi: usize = v.len();
    while lo < hi
        invariant
            0 <= lo <= hi <= v@.len(),
            forall|j: int| 0 <= j < lo ==> v@[j] < val,
            forall|j: int| hi <= j < v@.len() ==> v@[j] > val,
        decreases hi - lo,
    {
        let mid = lo + (hi - lo) / 2;
        if v[mid] == val {
            proof {
                assert(v@[mid as int] == val);
            }
            return true;
        } else if v[mid] < val {
            lo = mid + 1;
        } else {
            hi = mid;
        }
    }
    proof {
        assert(forall|j: int| 0 <= j < v@.len() ==> v@[j] != val);
    }
    false
}

/// True exactly when the run ascends strictly.
#[verifier::loop_isolation(false)]
fn is_sorted_strict(v: &Vec<u64>) -> (r: bool)
    ensures
        r == sorted_strict(v@),
{
    let mut j: usize = 1;
    while j < v.len()
        invariant
            1 <= j,
            forall|a: int, b: int| 0 <= a < b < j && b < v@.len() ==> v@[a] < v@[b],
        decreases v@.len() - j,
    {
        if v[j - 1] >= v[j] {
            return false;
        }
        j = j + 1;
    }
    true
}

/// Merges two strictly sorted runs with no element in common into one
/// strictly sorted run holding exactly the elements of both.
#[verifier::loop_isolation(false)]
fn merge_sorted(xs: &Vec<u64>, ys: &Vec<u64>) -> (r: Vec<u64>)
    requires
        sorted_strict(xs@),
        sorted_strict(ys@),
        forall|a: int, b: int| 0 <= a < xs@.len() && 0 <= b < ys@.len() ==> xs@[a] != ys@[b],
        xs@.len() + ys@.len() <= usize::MAX,
    ensures
        sorted_strict(r@),
        r@.to_multiset() == xs@.to_multiset().add(ys@.to_multiset()),
        r@.len() == xs@.len() + ys@.len(),
{
    let mut r: Vec<u64> = Vec::new();
    let mut a: usize = 0;
    let mut b: usize = 0;
    proof {
        assert(xs@.take(0) =~= Seq::<u64>::empty());
        assert(ys@.take(0) =~= Seq::<u64>::empty());
        lemma_to_multiset_empty(Seq::<u64>::empty());
        assert(r@.to_multiset() =~= xs@.take(0).to_multiset().add(ys@.take(0).to_multiset()));
    }
    while a < xs.len() || b < ys.len()
        invariant
            0 <= a <= xs@.len(),
            0 <= b <= ys@.len(),
            r@.len() == a + b,
            sorted_strict(r@),
            forall|t: int, j: int| 0 <= t < r@.len() && a <= j < xs@.len() ==> r@[t] < xs@[j],
            forall|t: int, j: int| 0 <= t < r@.len() && b <= j < ys@.len() ==> r@[t] < ys@[j],
            r@.to_multiset() == xs@.take(a as int).to_multiset().add(
                ys@.take(b as int).to_multiset(),
            ),
        decreases xs@.len() + ys@.len() - a - b,
    {
        let take_x: bool = if b >= ys.len() {
            true
        } else if a >= xs.len() {
            false
        } else {
            xs[a] < ys[b]
        };
        let ghost old_r = r@;
        if take_x {
            r.push(xs[a]);
            proof {
                old_r.to_multiset_ensures();
                xs@.take(a as int).to_multiset_ensures();
                assert(xs@.take(a as int + 1) =~= xs@.take(a as int).push(xs@[a as int]));
                assert(r@.to_multiset() =~= xs@.take(a as int + 1).to_multiset().add(
                    ys@.take(b as int).to_multiset(),
                ));
            }
            a = a + 1;
        } else {
            r.push(ys[b]);
            proof {
                old_r.to_multiset_ensures();
                ys@.take(b as int).to_multiset_ensures();
                assert(ys@.take(b as int + 1) =~= ys@.take(b as int).push(ys@[b as int]));
                assert(r@.to_multiset() =~= xs@.take(a as int).to_multiset().add(
                    ys@.take(b as int + 1).to_multiset(),
                ));
            }
            b = b + 1;
        }
    }
    proof {
        assert(xs@.take(xs@.len() as int) =~= xs@);
        assert(ys@.take(ys@.len() as int) =~= ys@);
    }
    r
}

} // verus!
