//! Keys as sequences of 4-bit digits, high half of each byte first.
use vstd::prelude::*;

verus! {

/// The digit that marks the end of a complete key; it lies outside `0..16`.
pub const LEAF_FLAG: usize = 16;

/// The width of a half byte, in bits.
pub const FOUR_BIT: u8 = 4;

/// The number of values a half byte can take.
pub const CARRY_BIT: u8 = 16;

/// The digits of `raw`: digit `2j` is the high half of byte `j`, digit
/// `2j + 1` its low half.
pub open spec fn digits_of(raw: Seq<u8>) -> Seq<u8> {
    Seq::new(
        (2 * raw.len()) as nat,
        |i: int| if i % 2 == 0 { raw[i / 2] / 16 } else { raw[i / 2] % 16 },
    )
}

/// The digits of `raw`, followed by the terminator when `complete` holds.
pub open spec fn encode(raw: Seq<u8>, complete: bool) -> Seq<u8> {
    if complete {
        digits_of(raw).push(LEAF_FLAG as u8)
    } else {
        digits_of(raw)
    }
}

/// Every digit of `s` is an ordinary half byte.
pub open spec fn is_path(s: Seq<u8>) -> bool {
    forall|i: int| 0 <= i < s.len() ==> #[trigger] s[i] < 16
}

/// `s` is a path followed by exactly one terminator.
pub open spec fn is_complete(s: Seq<u8>) -> bool {
    &&& s.len() > 0
    &&& s.last() == LEAF_FLAG as u8
    &&& is_path(s.drop_last())
}

/// `m` is the length of the longest common leading run of `a` and `b`.
pub open spec fn is_match_len(a: Seq<u8>, b: Seq<u8>, m: int) -> bool {
    &&& 0 <= m <= a.len()
    &&& m <= b.len()
    &&& a.take(m) == b.take(m)
    &&& (m < a.len() && m < b.len()) ==> a[m] != b[m]
}

/// An immutable sequence of digits.
#[derive(Clone, Debug, PartialEq, Eq, Default)]
pub struct Nibble {
    data: Vec<u8>,
}

impl View for Nibble {
    type V = Seq<u8>;

    closed spec fn view(&self) -> Seq<u8> {
        self.data@
    }
}

impl Nibble {
    /// Splits each byte of `raw` into two digits, and appends the terminator
    /// when `is_leaf` holds.
    pub fn from_raw(raw: Vec<u8>, is_leaf: bool) -> (r: Nibble)
        ensures
            r@ == encode(raw@, is_leaf),
    {
        let mut data: Vec<u8> = Vec::new();
        let mut i: usize = 0;
        while i < raw.len()
            invariant
                i <= raw@.len(),
                data@ =~= digits_of(raw@.take(i as int)),
            decreases raw@.len() - i,
        {
            let byte = raw[i];
            let high_half = byte >> FOUR_BIT;
            let low_half = byte % CARRY_BIT;
            assert(high_half == byte / 16) by (bit_vector)
                requires
                    high_half == byte >> 4u8,
            ;
            data.push(high_half);
            data.push(low_half);
            i += 1;
            assert(data@ =~= digits_of(raw@.take(i as int)));
        }
        assert(raw@.take(raw@.len() as int) =~= raw@);
        if is_leaf {
            data.push(LEAF_FLAG as u8);
        }
        Nibble { data }
    }

    /// The one-digit sequence `digit`.
    pub fn from_digit(digit: u8) -> (r: Nibble)
        ensures
            r@ == seq![digit],
    {
        let mut data: Vec<u8> = Vec::new();
        data.push(digit);
        assert(data@ =~= seq![digit]);
        Nibble { data }
    }

    /// The length of the longest common leading run of the two sequences.
    pub fn match_len(&self, other: &Nibble) -> (r: usize)
        ensures
            is_match_len(self@, other@, r as int),
    {
        let len = if self.len() < other.len() {
            self.len()
        } else {
            other.len()
        };
        let mut i: usize = 0;
        while i < len && self.value_at(i) == other.value_at(i)
            invariant
                len <= self@.len(),
                len <= other@.len(),
                len == self@.len() || len == other@.len(),
                i <= len,
                self@.take(i as int) =~= other@.take(i as int),
            decreases len - i,
        {
            i += 1;
            assert(self@.take(i as int) =~= other@.take(i as int));
        }
        i
    }

    pub fn len(&self) -> (r: usize)
        ensures
            r == self@.len(),
    {
        self.data.len()
    }

    /// The digit at `index`.
    pub fn value_at(&self, index: usize) -> (r: usize)
        requires
            index < self@.len(),
        ensures
            r == self@[index as int],
    {
        self.data[index] as usize
    }

    /// The digits from `index` on.
    pub fn slice_from(&self, index: usize) -> (r: Nibble)
        requires
            index <= self@.len(),
        ensures
            r@ == self@.skip(index as int),
    {
        let r = self.sub_slice(index, self.len());
        assert(r@ =~= self@.skip(index as int));
        r
    }

    /// The digits in `from..to`.
    pub fn sub_slice(&self, from: usize, to: usize) -> (r: Nibble)
        requires
            from <= to <= self@.len(),
        ensures
            r@ == self@.subrange(from as int, to as int),
    {
        let mut data: Vec<u8> = Vec::new();
        let mut i: usize = from;
        while i < to
            invariant
                from <= i <= to,
                to <= self@.len(),
                data@ =~= self@.subrange(from as int, i as int),
            decreases to - i,
        {
            data.push(self.data[i]);
            i += 1;
            assert(data@ =~= self@.subrange(from as int, i as int));
        }
        Nibble { data }
    }

    /// The digits of `self` followed by those of `other`.
    pub fn concat(&self, other: &Nibble) -> (r: Nibble)
        ensures
            r@ == self@ + other@,
    {
        let mut data: Vec<u8> = Vec::new();
        let mut i: usize = 0;
        while i < self.data.len()
            invariant
                i <= self@.len(),
                data@ =~= self@.take(i as int),
            decreases self@.len() - i,
        {
            data.push(self.data[i]);
            i += 1;
            assert(data@ =~= self@.take(i as int));
        }
        let mut j: usize = 0;
        while j < other.data.len()
            invariant
                j <= other@.len(),
                data@ =~= self@ + other@.take(j as int),
            decreases other@.len() - j,
        {
            data.push(other.data[j]);
            j += 1;
            assert(data@ =~= self@ + other@.take(j as int));
        }
        assert(other@.take(other@.len() as int) =~= other@);
        Nibble { data }
    }

    pub fn is_empty(&self) -> (r: bool)
        ensures
            r == (self@.len() == 0),
    {
        self.data.len() == 0
    }
}


/// In a complete key every digit is at most the terminator, and the
/// terminator stands last and nowhere else.
pub proof fn lemma_complete_digits(s: Seq<u8>)
    requires
        is_complete(s),
    ensures
        forall|i: int|
            0 <= i < s.len() ==> #[trigger] s[i] <= LEAF_FLAG && (s[i] == LEAF_FLAG <==> i == s.len() - 1),
{
    assert forall|i: int| 0 <= i < s.len() implies #[trigger] s[i] <= LEAF_FLAG && (s[i] == LEAF_FLAG
        <==> i == s.len() - 1) by {
        if i < s.len() - 1 {
            assert(s[i] == s.drop_last()[i]);
        }
    }
}


/// The digits of any byte string are a path, and with the terminator they are
/// a complete key.
pub proof fn lemma_encode_shape(raw: Seq<u8>)
    ensures
        is_path(encode(raw, false)),
        is_complete(encode(raw, true)),
        encode(raw, true) == encode(raw, false).push(LEAF_FLAG as u8),
{
    assert(encode(raw, true).drop_last() =~= encode(raw, false));
}

/// Two byte strings have the same encoding only when they are equal.
pub proof fn lemma_encode_injective(a: Seq<u8>, b: Seq<u8>, complete: bool)
    ensures
        (encode(a, complete) == encode(b, complete)) == (a == b),
{
    if encode(a, complete) == encode(b, complete) {
        if complete {
            assert(digits_of(a) =~= encode(a, complete).drop_last());
            assert(digits_of(b) =~= encode(b, complete).drop_last());
        }
        let (da, db) = (digits_of(a), digits_of(b));
        assert(da == db);
        assert(a.len() == b.len());
        assert forall|j: int| 0 <= j < a.len() implies a[j] == b[j] by {
            assert(da[2 * j] == db[2 * j]);
            assert(da[2 * j + 1] == db[2 * j + 1]);
            let (x, y) = (a[j], b[j]);
            assert(x / 16 == y / 16 && x % 16 == y % 16 ==> x == y) by (nonlinear_arith);
        }
        assert(a =~= b);
    }
}

/// The length of the common leading run is unique.
pub proof fn lemma_match_len_unique(a: Seq<u8>, b: Seq<u8>, m1: int, m2: int)
    requires
        is_match_len(a, b, m1),
        is_match_len(a, b, m2),
    ensures
        m1 == m2,
{
    if m1 < m2 {
        assert(a[m1] == a.take(m2)[m1] && b[m1] == b.take(m2)[m1]);
    }
    if m2 < m1 {
        assert(a[m2] == a.take(m1)[m2] && b[m2] == b.take(m1)[m2]);
    }
}

} // verus!
