//! A fixed-size bitmap with a running count of the bits that are set.
use vstd::prelude::*;

verus! {

/// Whether bit `b` of the word `w` is set.
pub open spec fn bit_at(w: u64, b: u64) -> bool {
    (w >> b) & 1 == 1
}

/// The number of `true` entries in `s`.
pub open spec fn count_set(s: Seq<bool>) -> nat
    decreases s.len(),
{
    if s.len() == 0 {
        0
    } else {
        count_set(s.drop_last()) + if s.last() {
            1nat
        } else {
            0nat
        }
    }
}

/// The number of 64-bit words that hold `cap` bits.
pub open spec fn words_for(cap: nat) -> nat {
    if cap % 64 == 0 {
        cap / 64
    } else {
        cap / 64 + 1
    }
}

/// Setting a bit that was clear raises the count by one, clearing a bit that
/// was set lowers it by one, and writing a bit's own value changes nothing.
pub proof fn lemma_count_update(s: Seq<bool>, i: int, v: bool)
    requires
        0 <= i < s.len(),
    ensures
        s[i] == v ==> count_set(s.update(i, v)) == count_set(s),
        !s[i] && v ==> count_set(s.update(i, v)) == count_set(s) + 1,
        s[i] && !v ==> count_set(s.update(i, v)) + 1 == count_set(s),
    decreases s.len(),
{
    let t = s.update(i, v);
    if i == s.len() - 1 {
        assert(t.drop_last() =~= s.drop_last());
    } else {
        assert(t.drop_last() =~= s.drop_last().update(i, v));
        lemma_count_update(s.drop_last(), i, v);
    }
}

/// The count never exceeds the length, and reaches it only when every entry
/// is `true`; it is zero only when every entry is `false`.
pub proof fn lemma_count_bounds(s: Seq<bool>)
    ensures
        count_set(s) <= s.len(),
        count_set(s) == s.len() <==> (forall|i: int| 0 <= i < s.len() ==> s[i]),
        count_set(s) == 0 <==> (forall|i: int| 0 <= i < s.len() ==> !s[i]),
    decreases s.len(),
{
    if s.len() > 0 {
        let d = s.drop_last();
        lemma_count_bounds(d);
        assert(forall|i: int| 0 <= i < d.len() ==> d[i] == s[i]);
        if count_set(s) == s.len() {
            assert(s.last());
            assert forall|i: int| 0 <= i < s.len() implies s[i] by {
                if i < d.len() {
                    assert(d[i]);
                }
            }
        }
        if forall|i: int| 0 <= i < s.len() ==> s[i] {
            assert(s[s.len() - 1]);
            assert(forall|i: int| 0 <= i < d.len() ==> d[i]);
        }
        if count_set(s) == 0 {
            assert forall|i: int| 0 <= i < s.len() implies !s[i] by {
                if i < d.len() {
                    assert(!d[i]);
                }
            }
        }
        if forall|i: int| 0 <= i < s.len() ==> !s[i] {
            assert(!s[s.len() - 1]);
            assert(forall|i: int| 0 <= i < d.len() ==> !d[i]);
        }
    }
}

proof fn lemma_bit_set(w: u64, b: u64, j: u64)
    requires
        b < 64,
        j < 64,
    ensures
        bit_at(w | (1u64 << b), j) == (j == b || bit_at(w, j)),
{
    assert(((w | (1u64 << b)) >> j) & 1 == 1 <==> (j == b || (w >> j) & 1 == 1)) by (bit_vector)
        requires
            b < 64,
            j < 64,
    ;
}

proof fn lemma_bit_clear(w: u64, b: u64, j: u64)
    requires
        b < 64,
        j < 64,
    ensures
        bit_at(w & !(1u64 << b), j) == (j != b && bit_at(w, j)),
{
    assert(((w & !(1u64 << b)) >> j) & 1 == 1 <==> (j != b && (w >> j) & 1 == 1)) by (bit_vector)
        requires
            b < 64,
            j < 64,
    ;
}

proof fn lemma_bit_test(w: u64, b: u64)
    requires
        b < 64,
    ensures
        (w & (1u64 << b) != 0) == bit_at(w, b),
{
    assert((w & (1u64 << b) != 0) <==> ((w >> b) & 1 == 1)) by (bit_vector)
        requires
            b < 64,
    ;
}

proof fn lemma_bit_zero(j: u64)
    requires
        j < 64,
    ensures
        !bit_at(0u64, j),
{
    assert((0u64 >> j) & 1 == 0) by (bit_vector)
        requires
            j < 64,
    ;
}

/// A simple fixed size bitmap.
pub struct Bitmap {
    cap: u32,
    len: u32,
    bits: Vec<u64>,
}

impl Bitmap {
    /// The bits as a sequence of `cap` booleans.
    pub closed spec fn view(&self) -> Seq<bool> {
        Seq::new(
            self.cap as nat,
            |i: int| bit_at(self.bits@[i / 64], (i % 64) as u64),
        )
    }

    /// The representation is consistent: enough words for `cap` bits, no bit
    /// set at or beyond `cap`, and `len` counts the bits that are set.
    pub closed spec fn wf(&self) -> bool {
        &&& self.bits@.len() == words_for(self.cap as nat)
        &&& self.len as nat == count_set(self.view())
        &&& forall|i: int|
            self.cap <= i < 64 * self.bits@.len() ==> !bit_at(
                #[trigger] self.bits@[i / 64],
                (i % 64) as u64,
            )
    }

    /// The capacity as a specification value.
    pub closed spec fn spec_cap(&self) -> u32 {
        self.cap
    }

    /// The number of set bits as a specification value.
    pub closed spec fn spec_len(&self) -> u32 {
        self.len
    }

    /// The view has `cap` entries and `len` of them are set.
    pub proof fn lemma_view(&self)
        requires
            self.wf(),
        ensures
            self@.len() == self.spec_cap(),
            self.spec_len() == count_set(self@),
            self.spec_len() <= self.spec_cap(),
    {
        lemma_count_bounds(self@);
    }

    /// Creates a bitmap of `cap` bits, all clear.
    pub fn new(cap: u32) -> (r: Self)
        ensures
            r.wf(),
            r@.len() == cap,
            r.spec_cap() == cap,
            r.spec_len() == 0,
            forall|i: int| 0 <= i < cap ==> !r@[i],
    {
        let size: u32 = if cap % 64 == 0 {
            cap / 64
        } else {
            cap / 64 + 1
        };
        let mut bits: Vec<u64> = Vec::new();
        let mut k: u32 = 0;
        while k < size
            invariant
                k <= size,
                bits@.len() == k,
                forall|j: int| 0 <= j < k ==> bits@[j] == 0u64,
            decreases size - k,
        {
            bits.push(0u64);
            k += 1;
        }
        let r = Self { cap, len: 0, bits };
        proof {
            assert forall|i: int| 0 <= i < 64 * r.bits@.len() implies !bit_at(
                #[trigger] r.bits@[i / 64],
                (i % 64) as u64,
            ) by {
                lemma_bit_zero((i % 64) as u64);
            }
            assert forall|i: int| 0 <= i < cap implies !r@[i] by {
                lemma_bit_zero((i % 64) as u64);
            }
            lemma_count_bounds(r@);
        }
        r
    }

    /// Set the corresponding bit. Returns whether the bit was clear before.
    pub fn set(&mut self, index: u32) -> (inserted: bool)
        requires
            old(self).wf(),
            index < old(self)@.len(),
        ensures
            final(self).wf(),
            final(self)@ == old(self)@.update(index as int, true),
            final(self).spec_cap() == old(self).spec_cap(),
            inserted == !old(self)@[index as int],
            final(self).spec_len() == old(self).spec_len() + if inserted {
                1int
            } else {
                0int
            },
    {
        let k: usize = key(index);
        let b: usize = bit(index);
        let old_w: u64 = self.bits[k];
        let new_w: u64 = old_w | (1u64 << (b as u64));
        let inserted: bool = old_w & (1u64 << (b as u64)) == 0;
        proof {
            lemma_bit_test(old_w, b as u64);
            lemma_count_bounds(self@);
            lemma_count_update(self@, index as int, true);
        }
        self.bits[k] = new_w;
        if inserted {
            self.len += 1;
        }
        proof {
            assert forall|i: int| 0 <= i < self.cap implies self@[i] == old(self)@.update(
                index as int,
                true,
            )[i] by {
                if i / 64 == k as int {
                    lemma_bit_set(old_w, b as u64, (i % 64) as u64);
                }
            }
            assert(self@ =~= old(self)@.update(index as int, true));
            assert forall|i: int| self.cap <= i < 64 * self.bits@.len() implies !bit_at(
                #[trigger] self.bits@[i / 64],
                (i % 64) as u64,
            ) by {
                assert(!bit_at(old(self).bits@[i / 64], (i % 64) as u64));
                if i / 64 == k as int {
                    lemma_bit_set(old_w, b as u64, (i % 64) as u64);
                }
            }
        }
        inserted
    }

    /// Clear the corresponding bit. Returns whether the bit was set before.
    pub fn clear(&mut self, index: u32) -> (removed: bool)
        requires
            old(self).wf(),
            index < old(self)@.len(),
        ensures
            final(self).wf(),
            final(self)@ == old(self)@.update(index as int, false),
            final(self).spec_cap() == old(self).spec_cap(),
            removed == old(self)@[index as int],
            final(self).spec_len() == old(self).spec_len() - if removed {
                1int
            } else {
                0int
            },
    {
        let k: usize = key(index);
        let b: usize = bit(index);
        let old_w: u64 = self.bits[k];
        let new_w: u64 = old_w & !(1u64 << (b as u64));
        let removed: bool = old_w & (1u64 << (b as u64)) != 0;
        proof {
            lemma_bit_test(old_w, b as u64);
            lemma_count_bounds(self@);
            lemma_count_update(self@, index as int, false);
        }
        self.bits[k] = new_w;
        if removed {
            self.len -= 1;
        }
        proof {
            assert forall|i: int| 0 <= i < self.cap implies self@[i] == old(self)@.update(
                index as int,
                false,
            )[i] by {
                if i / 64 == k as int {
                    lemma_bit_clear(old_w, b as u64, (i % 64) as u64);
                }
            }
            assert(self@ =~= old(self)@.update(index as int, false));
            assert forall|i: int| self.cap <= i < 64 * self.bits@.len() implies !bit_at(
                #[trigger] self.bits@[i / 64],
                (i % 64) as u64,
            ) by {
                assert(!bit_at(old(self).bits@[i / 64], (i % 64) as u64));
                if i / 64 == k as int {
                    lemma_bit_clear(old_w, b as u64, (i % 64) as u64);
                }
            }
        }
        removed
    }

    /// Whether the specified bit is set.
    pub fn exist(&self, index: u32) -> (r: bool)
        requires
            self.wf(),
            index < self@.len(),
        ensures
            r == self@[index as int],
    {
        let k: usize = key(index);
        let b: usize = bit(index);
        proof {
            lemma_bit_test(self.bits@[k as int], b as u64);
        }
        self.bits[k] & (1u64 << (b as u64)) != 0
    }

    /// Return the index of the first unset bit (from 0 start).
    pub fn vacance(&self) -> (r: Option<u32>)
        requires
            self.wf(),
        ensures
            match r {
                Some(i) => i < self@.len() && !self@[i as int] && forall|j: int|
                    0 <= j < i ==> self@[j],
                None => forall|j: int| 0 <= j < self@.len() ==> self@[j],
            },
    {
        let mut idx: u32 = 0;
        while idx < self.cap
            invariant
                self.wf(),
                idx <= self.cap,
                self@.len() == self.cap,
                forall|j: int| 0 <= j < idx ==> self@[j],
            decreases self.cap - idx,
        {
            if !self.exist(idx) {
                return Some(idx);
            }
            idx += 1;
        }
        None
    }

    /// Returns the number of unset bits.
    pub fn free(&self) -> (r: u32)
        requires
            self.wf(),
        ensures
            r == self@.len() - count_set(self@),
    {
        proof {
            lemma_count_bounds(self@);
        }
        self.cap - self.len
    }

    /// Returns the number of set bits.
    pub fn len(&self) -> (r: u32)
        requires
            self.wf(),
        ensures
            r == count_set(self@),
            r == self.spec_len(),
    {
        self.len
    }

    /// Returns the total bits.
    pub fn cap(&self) -> (r: u32)
        ensures
            r == self@.len(),
            r == self.spec_cap(),
    {
        self.cap
    }

    /// Whether every bit is set.
    pub fn is_full(&self) -> (r: bool)
        requires
            self.wf(),
        ensures
            r == (forall|i: int| 0 <= i < self@.len() ==> self@[i]),
            r == (self.spec_len() == self.spec_cap()),
    {
        proof {
            lemma_count_bounds(self@);
        }
        self.len == self.cap
    }

    /// Whether no bit is set.
    pub fn is_empty(&self) -> (r: bool)
        requires
            self.wf(),
        ensures
            r == (forall|i: int| 0 <= i < self@.len() ==> !self@[i]),
            r == (self.spec_len() == 0),
    {
        proof {
            lemma_count_bounds(self@);
        }
        self.len == 0
    }

    /// A cursor over the indices of the set bits, in ascending order.
    pub fn iter(&self) -> (it: BitmapIter<'_>)
        requires
            self.wf(),
        ensures
            it.wf(),
            it.bitmap() == *self,
            it.position() == 0,
    {
        BitmapIter::new(self)
    }
}

/// A cursor over the set bits of a bitmap.
pub struct BitmapIter<'a> {
    bitmap: &'a Bitmap,
    key: usize,
    value: u64,
    pos: Ghost<nat>,
}

impl<'a> BitmapIter<'a> {
    /// The bitmap that the cursor walks.
    pub closed spec fn bitmap(&self) -> Bitmap {
        *self.bitmap
    }

    /// Every set bit below this index has been handed out already.
    pub closed spec fn position(&self) -> nat {
        self.pos@
    }

    /// The cursor's word and offset agree with its position.
    pub closed spec fn wf(&self) -> bool {
        &&& self.bitmap.wf()
        &&& self.key <= self.bitmap.bits@.len()
        &&& if self.key < self.bitmap.bits@.len() {
            &&& 64 * self.key <= self.pos@ <= 64 * (self.key + 1)
            &&& forall|j: u64|
                j < 64 ==> #[trigger] bit_at(self.value, j) == (bit_at(
                    self.bitmap.bits@[self.key as int],
                    j,
                ) && 64 * self.key + j >= self.pos@)
        } else {
            &&& self.value == 0
            &&& self.pos@ >= self.bitmap.cap
        }
    }

    fn new(bitmap: &'a Bitmap) -> (it: Self)
        requires
            bitmap.wf(),
        ensures
            it.wf(),
            it.bitmap() == *bitmap,
            it.position() == 0,
    {
        if bitmap.bits.len() == 0 {
            Self { bitmap, key: 0, value: 0, pos: Ghost(0) }
        } else {
            Self { bitmap, key: 0, value: bitmap.bits[0], pos: Ghost(0) }
        }
    }

    /// Hands out the index of the next set bit, or `None` when none is left.
    pub fn next(&mut self) -> (r: Option<u32>)
        requires
            old(self).wf(),
        ensures
            final(self).wf(),
            final(self).bitmap() == old(self).bitmap(),
            match r {
                Some(i) => {
                    &&& old(self).position() <= i < old(self).bitmap()@.len()
                    &&& old(self).bitmap()@[i as int]
                    &&& forall|j: int| old(self).position() <= j < i ==> !old(self).bitmap()@[j]
                    &&& final(self).position() == i + 1
                },
                None => {
                    &&& forall|j: int|
                        old(self).position() <= j < old(self).bitmap()@.len() ==> !old(
                            self,
                        ).bitmap()@[j]
                    &&& final(self).position() == if old(self).position() >= old(
                        self,
                    ).bitmap()@.len() {
                        old(self).position()
                    } else {
                        old(self).bitmap()@.len()
                    }
                },
            },
    {
        let n: usize = self.bitmap.bits.len();
        loop
            invariant
                self.wf(),
                self.bitmap == old(self).bitmap,
                n == self.bitmap.bits@.len(),
                old(self).position() <= self.pos@,
                self.pos@ == old(self).pos@ || self.pos@ <= self.bitmap.cap,
                self.key + 1 < n ==> self.pos@ < self.bitmap.cap,
                forall|j: int|
                    old(self).position() <= j < self.pos@ && j < self.bitmap@.len()
                        ==> !self.bitmap@[j],
            decreases n - self.key, if self.value == 0 { 0int } else { 1int },
        {
            if self.key >= n {
                return None;
            }
            if self.value == 0 {
                proof {
                    let key = self.key;
                    assert forall|j: int|
                        self.pos@ <= j < 64 * (key + 1) && j < self.bitmap@.len()
                            implies !self.bitmap@[j] by {
                        assert(j / 64 == key as int);
                        let jj: u64 = (j % 64) as u64;
                        lemma_bit_zero(jj);
                        assert(bit_at(self.value, jj) == (bit_at(self.bitmap.bits@[key as int], jj)
                            && 64 * key + jj >= self.pos@));
                    }
                }
                self.key += 1;
                if self.key < n {
                    self.value = self.bitmap.bits[self.key];
                    self.pos = Ghost((64 * self.key) as nat);
                } else {
                    let ghost reached = self.pos@;
                    self.pos = Ghost(
                        if reached >= self.bitmap.cap {
                            reached
                        } else {
                            self.bitmap.cap as nat
                        },
                    );
                    proof {
                        assert(words_for(self.bitmap.cap as nat) == n);
                    }
                    return None;
                }
                continue ;
            }
            let tz: u32 = self.value.trailing_zeros();
            proof {
                vstd::std_specs::bits::axiom_u64_trailing_zeros(self.value);
            }
            let ghost key = self.key;
            let ghost old_value = self.value;
            let ghost old_pos = self.pos@;
            let index: usize = tz as usize;
            proof {
                assert(bit_at(old_value, tz as u64));
                let i = 64 * key + tz;
                assert(i / 64 == key as int && i % 64 == tz as int);
                if i >= self.bitmap.cap {
                    assert(!bit_at(self.bitmap.bits@[i / 64], (i % 64) as u64));
                }
                assert forall|j: int| old_pos <= j < i implies !self.bitmap@[j] by {
                    assert(j / 64 == key as int);
                    let jj: u64 = (j % 64) as u64;
                    assert((old_value >> jj) & 1u64 == 0u64);
                    assert(!bit_at(old_value, jj));
                }
            }
            self.value = self.value & !(1u64 << (tz as u64));
            self.pos = Ghost((64 * self.key + index + 1) as nat);
            proof {
                assert forall|j: u64| j < 64 implies #[trigger] bit_at(self.value, j) == (bit_at(
                    self.bitmap.bits@[key as int],
                    j,
                ) && 64 * key + j >= self.pos@) by {
                    lemma_bit_clear(old_value, tz as u64, j);
                    if j < tz {
                        assert((old_value >> j) & 1u64 == 0u64);
                    }
                }
            }
            return Some((64 * self.key + index) as u32);
        }
    }
}

/// The word that holds bit `index`.
fn key(index: u32) -> (r: usize)
    ensures
        r == index / 64,
{
    index as usize / 64
}

/// The position of bit `index` inside its word.
fn bit(index: u32) -> (r: usize)
    ensures
        r == index % 64,
        r < 64,
{
    index as usize % 64
}

} // verus!
