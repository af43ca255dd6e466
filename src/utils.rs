//! Small helpers shared by the tree builder and the command-line front end.

use vstd::prelude::*;
use vstd::string::StringSliceAdditionalSpecFns;

verus! {

/// Number of `true` entries in a sequence of flags.
pub open spec fn count_true(v: Seq<bool>) -> int
    decreases v.len(),
{
    if v.len() == 0 {
        0
    } else {
        count_true(v.drop_last()) + if v.last() { 1int } else { 0int }
    }
}

/// Position of the first smallest value (0 for an empty sequence).
pub open spec fn first_min(s: Seq<int>) -> int
    decreases s.len(),
{
    if s.len() <= 1 {
        0
    } else {
        let b = first_min(s.drop_last());
        if s.last() < s[b] { s.len() - 1 } else { b }
    }
}

/// Position of the first largest value (0 for an empty sequence).
pub open spec fn first_max(s: Seq<int>) -> int
    decreases s.len(),
{
    if s.len() <= 1 {
        0
    } else {
        let b = first_max(s.drop_last());
        if s.last() > s[b] { s.len() - 1 } else { b }
    }
}

/// The values of a vector of `i64` as mathematical integers.
pub open spec fn as_ints(v: Seq<i64>) -> Seq<int> {
    v.map_values(|x: i64| x as int)
}

/// Absolute value.
pub open spec fn magnitude(x: int) -> int {
    if x >= 0 { x } else { -x }
}

/// The absolute values of a vector of `i64`.
pub open spec fn magnitudes(v: Seq<i64>) -> Seq<int> {
    v.map_values(|x: i64| magnitude(x as int))
}

pub proof fn lemma_first_min(s: Seq<int>)
    requires
        s.len() >= 1,
    ensures
        0 <= first_min(s) < s.len(),
        forall|j: int| 0 <= j < s.len() ==> s[first_min(s)] <= #[trigger] s[j],
        forall|j: int| 0 <= j < first_min(s) ==> s[first_min(s)] < #[trigger] s[j],
    decreases s.len(),
{
    if s.len() > 1 {
        let t = s.drop_last();
        lemma_first_min(t);
        let r = first_min(s);
        assert forall|j: int| 0 <= j < s.len() implies s[r] <= #[trigger] s[j] by {
            if j < t.len() {
                assert(t[j] == s[j]);
            }
        }
        assert forall|j: int| 0 <= j < r implies s[r] < #[trigger] s[j] by {
            assert(t[j] == s[j]);
        }
    }
}

pub proof fn lemma_first_max(s: Seq<int>)
    requires
        s.len() >= 1,
    ensures
        0 <= first_max(s) < s.len(),
        forall|j: int| 0 <= j < s.len() ==> s[first_max(s)] >= #[trigger] s[j],
        forall|j: int| 0 <= j < first_max(s) ==> s[first_max(s)] > #[trigger] s[j],
    decreases s.len(),
{
    if s.len() > 1 {
        let t = s.drop_last();
        lemma_first_max(t);
        let r = first_max(s);
        assert forall|j: int| 0 <= j < s.len() implies s[r] >= #[trigger] s[j] by {
            if j < t.len() {
                assert(t[j] == s[j]);
            }
        }
        assert forall|j: int| 0 <= j < r implies s[r] > #[trigger] s[j] by {
            assert(t[j] == s[j]);
        }
    }
}

/// Number of `true` entries.
pub fn sum_bool_vec(v: &Vec<bool>) -> (r: i32)
    requires
        v@.len() <= i32::MAX,
    ensures
        r == count_true(v@),
{
    let mut s: i32 = 0;
    let mut i: usize = 0;
    while i < v.len()
        invariant
            i <= v@.len() <= i32::MAX,
            s == count_true(v@.take(i as int)),
            0 <= s <= i,
        decreases v@.len() - i,
    {
        assert(v@.take(i as int + 1).drop_last() == v@.take(i as int));
        if v[i] {
            s = s + 1;
        }
        i = i + 1;
    }
    assert(v@.take(i as int) == v@);
    s
}

/// Index of the first smallest value; 0 when there is none.
pub fn first_min_index(vals: &Vec<i64>) -> (r: usize)
    ensures
        r == first_min(as_ints(vals@)),
        vals@.len() > 0 ==> r < vals@.len(),
{
    if vals.len() == 0 {
        return 0;
    }
    let mut best: usize = 0;
    let mut i: usize = 1;
    while i < vals.len()
        invariant
            1 <= i <= vals@.len(),
            best == first_min(as_ints(vals@).take(i as int)),
            best < i,
        decreases vals@.len() - i,
    {
        assert(as_ints(vals@).take(i as int + 1).drop_last() == as_ints(vals@).take(i as int));
        if vals[i] < vals[best] {
            best = i;
        }
        i = i + 1;
    }
    assert(as_ints(vals@).take(i as int) == as_ints(vals@));
    best
}

/// Index of the first largest value; 0 when there is none.
pub fn first_max_index(vals: &Vec<i64>) -> (r: usize)
    ensures
        r == first_max(as_ints(vals@)),
        vals@.len() > 0 ==> r < vals@.len(),
{
    if vals.len() == 0 {
        return 0;
    }
    let mut best: usize = 0;
    let mut i: usize = 1;
    while i < vals.len()
        invariant
            1 <= i <= vals@.len(),
            best == first_max(as_ints(vals@).take(i as int)),
            best < i,
        decreases vals@.len() - i,
    {
        assert(as_ints(vals@).take(i as int + 1).drop_last() == as_ints(vals@).take(i as int));
        if vals[i] > vals[best] {
            best = i;
        }
        i = i + 1;
    }
    assert(as_ints(vals@).take(i as int) == as_ints(vals@));
    best
}

/// Index of the first value of smallest magnitude; 0 when there is none.
pub fn get_min_index(vals: &Vec<i64>) -> (r: usize)
    ensures
        r == first_min(magnitudes(vals@)),
        vals@.len() > 0 ==> r < vals@.len(),
{
    if vals.len() == 0 {
        return 0;
    }
    let mut best: usize = 0;
    let mut best_abs: i128 = if vals[0] < 0 { -(vals[0] as i128) } else { vals[0] as i128 };
    let mut i: usize = 1;
    while i < vals.len()
        invariant
            1 <= i <= vals@.len(),
            best == first_min(magnitudes(vals@).take(i as int)),
            best < i,
            best_abs == magnitude(vals@[best as int] as int),
        decreases vals@.len() - i,
    {
        assert(magnitudes(vals@).take(i as int + 1).drop_last() == magnitudes(vals@).take(i as int));
        let a: i128 = if vals[i] < 0 { -(vals[i] as i128) } else { vals[i] as i128 };
        if a < best_abs {
            best = i;
            best_abs = a;
        }
        i = i + 1;
    }
    assert(magnitudes(vals@).take(i as int) == magnitudes(vals@));
    best
}

/// Index of the first value of largest magnitude; 0 when there is none.
pub fn get_max_index(vals: &Vec<i64>) -> (r: usize)
    ensures
        r == first_max(magnitudes(vals@)),
        vals@.len() > 0 ==> r < vals@.len(),
{
    if vals.len() == 0 {
        return 0;
    }
    let mut best: usize = 0;
    let mut best_abs: i128 = if vals[0] < 0 { -(vals[0] as i128) } else { vals[0] as i128 };
    let mut i: usize = 1;
    while i < vals.len()
        invariant
            1 <= i <= vals@.len(),
            best == first_max(magnitudes(vals@).take(i as int)),
            best < i,
            best_abs == magnitude(vals@[best as int] as int),
        decreases vals@.len() - i,
    {
        assert(magnitudes(vals@).take(i as int + 1).drop_last() == magnitudes(vals@).take(i as int));
        let a: i128 = if vals[i] < 0 { -(vals[i] as i128) } else { vals[i] as i128 };
        if a > best_abs {
            best = i;
            best_abs = a;
        }
        i = i + 1;
    }
    assert(magnitudes(vals@).take(i as int) == magnitudes(vals@));
    best
}

/// The part of a file name after its last dot (the whole name if it has none).
pub open spec fn suffix_of(b: Seq<u8>) -> Seq<u8>
    decreases b.len(),
{
    if b.len() == 0 {
        seq![]
    } else if b.last() == 0x2e {
        seq![]
    } else {
        suffix_of(b.drop_last()).push(b.last())
    }
}

/// Kind of input file named by its suffix: 1 for `csv`, 2 for `tsv`, 9 for
/// `gz`, 0 for any other.
pub open spec fn file_type_of(b: Seq<u8>) -> u8 {
    let s = suffix_of(b);
    if s == seq![0x63u8, 0x73u8, 0x76u8] {
        1
    } else if s == seq![0x74u8, 0x73u8, 0x76u8] {
        2
    } else if s == seq![0x67u8, 0x7au8] {
        9
    } else {
        0
    }
}

proof fn lemma_suffix_from(b: Seq<u8>, start: int)
    requires
        0 <= start <= b.len(),
        start == 0 || b[start - 1] == 0x2e,
        forall|j: int| start <= j < b.len() ==> #[trigger] b[j] != 0x2e,
    ensures
        suffix_of(b) == b.subrange(start, b.len() as int),
    decreases b.len(),
{
    if b.len() > start {
        let t = b.drop_last();
        assert forall|j: int| start <= j < t.len() implies #[trigger] t[j] != 0x2e by {
            assert(t[j] == b[j]);
        }
        lemma_suffix_from(t, start);
        assert(b.subrange(start, b.len() as int) == t.subrange(start, t.len() as int).push(b.last()));
    } else if start > 0 {
        assert(b.last() == 0x2e);
    }
}

/// Kind of input file, from the suffix after the last dot of its name: 1 for
/// `csv`, 2 for `tsv`, 9 for `gz`, 0 otherwise.
pub fn input_file_type(filename: &str) -> (r: u8)
    ensures
        r == file_type_of(filename.spec_bytes()),
{
    let b = filename.as_bytes();
    let mut start: usize = b.len();
    while start > 0 && b[start - 1] != 0x2e
        invariant
            b@ == filename.spec_bytes(),
            0 <= start <= b@.len(),
            forall|j: int| start <= j < b@.len() ==> #[trigger] b@[j] != 0x2e,
        decreases start,
    {
        start = start - 1;
    }
    proof {
        lemma_suffix_from(b@, start as int);
    }
    let ghost suf = b@.subrange(start as int, b@.len() as int);
    let n = b.len() - start;
    if n == 3 && b[start] == 0x63 && b[start + 1] == 0x73 && b[start + 2] == 0x76 {
        assert(suf == seq![0x63u8, 0x73u8, 0x76u8]);
        1
    } else if n == 3 && b[start] == 0x74 && b[start + 1] == 0x73 && b[start + 2] == 0x76 {
        assert(suf == seq![0x74u8, 0x73u8, 0x76u8]);
        assert(suf != seq![0x63u8, 0x73u8, 0x76u8]) by {
            assert(suf[0] == 0x74u8);
            assert(seq![0x63u8, 0x73u8, 0x76u8][0] == 0x63u8);
        }
        2
    } else if n == 2 && b[start] == 0x67 && b[start + 1] == 0x7a {
        assert(suf == seq![0x67u8, 0x7au8]);
        9
    } else {
        assert(suf.len() == n);
        assert(n >= 1 ==> suf[0] == b@[start as int]);
        assert(n >= 2 ==> suf[1] == b@[start + 1]);
        assert(n >= 3 ==> suf[2] == b@[start + 2]);
        assert(suf != seq![0x63u8, 0x73u8, 0x76u8]) by {
            if suf == seq![0x63u8, 0x73u8, 0x76u8] { assert(suf[0] == b@[start as int]); assert(suf[1] == b@[start + 1]); assert(suf[2] == b@[start + 2]); }
        }
        assert(suf != seq![0x74u8, 0x73u8, 0x76u8]) by {
            if suf == seq![0x74u8, 0x73u8, 0x76u8] { assert(suf[0] == b@[start as int]); assert(suf[1] == b@[start + 1]); assert(suf[2] == b@[start + 2]); }
        }
        assert(suf != seq![0x67u8, 0x7au8]) by {
            if suf == seq![0x67u8, 0x7au8] { assert(suf[0] == b@[start as int]); assert(suf[1] == b@[start + 1]); }
        }
        0
    }
}

} // verus!
