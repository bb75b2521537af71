//! Byte-wise XOR, the primitive of the one-time-pad hop encapsulation.

use vstd::prelude::*;

verus! {

/// Byte-wise XOR of two byte sequences, truncated to the shorter one.
pub open spec fn xor_bytes(a: Seq<u8>, b: Seq<u8>) -> Seq<u8> {
    Seq::new(if a.len() <= b.len() { a.len() } else { b.len() }, |i: int| a[i] ^ b[i])
}

/// XOR-ing twice with the same mask gives the original byte back.
proof fn xor_cancel(x: u8, y: u8)
    ensures
        (x ^ y) ^ y == x,
{
    assert((x ^ y) ^ y == x) by (bit_vector);
}

/// One-time-pad round trip: masking a sequence with `b` and unmasking with
/// `b` again restores the original, whenever the mask is at least as long.
pub proof fn lemma_xor_bytes_cancel(a: Seq<u8>, b: Seq<u8>)
    requires
        a.len() <= b.len(),
    ensures
        xor_bytes(xor_bytes(a, b), b) == a,
{
    let c = xor_bytes(xor_bytes(a, b), b);
    assert forall|i: int| 0 <= i < a.len() implies c[i] == a[i] by {
        xor_cancel(a[i], b[i]);
    }
    assert(c =~= a);
}

/// Index of the first element satisfying `p`, or `-1` when none does.
pub open spec fn first_where<T>(s: Seq<T>, p: spec_fn(T) -> bool) -> int
    decreases s.len(),
{
    if s.len() == 0 {
        -1
    } else if p(s[0]) {
        0
    } else {
        if first_where(s.drop_first(), p) == -1 {
            -1
        } else {
            1 + first_where(s.drop_first(), p)
        }
    }
}

/// What `first_where` returns: a match with nothing satisfying `p` before
/// it, or `-1` with nothing satisfying `p` at all.
pub proof fn lemma_first_where<T>(s: Seq<T>, p: spec_fn(T) -> bool)
    ensures
        first_where(s, p) == -1 ==> forall|j: int| 0 <= j < s.len() ==> !p(s[j]),
        first_where(s, p) != -1 ==> 0 <= first_where(s, p) < s.len() && p(s[first_where(s, p)])
            && (forall|j: int| 0 <= j < first_where(s, p) ==> !p(s[j])),
    decreases s.len(),
{
    if s.len() > 0 && !p(s[0]) {
        let t = s.drop_first();
        lemma_first_where(t, p);
        assert(forall|j: int| 0 <= j < t.len() ==> t[j] == s[j + 1]);
        let r = first_where(t, p);
        if r == -1 {
            assert(first_where(s, p) == -1);
            assert forall|j: int| 0 <= j < s.len() implies !p(s[j]) by {
                if j > 0 {
                    assert(s[j] == t[j - 1]);
                }
            }
        } else {
            assert(first_where(s, p) == 1 + r);
            assert(s[1 + r] == t[r]);
            assert forall|j: int| 0 <= j < 1 + r implies !p(s[j]) by {
                if j > 0 {
                    assert(s[j] == t[j - 1]);
                }
            }
        }
    }
}

/// A witness index that matches, with no match before it, is what
/// `first_where` returns.
pub proof fn lemma_first_where_is<T>(s: Seq<T>, p: spec_fn(T) -> bool, i: int)
    requires
        0 <= i < s.len(),
        p(s[i]),
        forall|j: int| 0 <= j < i ==> !p(s[j]),
    ensures
        first_where(s, p) == i,
    decreases i,
{
    if i > 0 {
        assert forall|j: int| 0 <= j < s.drop_first().len() implies s.drop_first()[j] == s[j + 1] by {}
        lemma_first_where_is(s.drop_first(), p, i - 1);
    }
}

/// When no element satisfies `p`, `first_where` reports `-1`.
pub proof fn lemma_first_where_none<T>(s: Seq<T>, p: spec_fn(T) -> bool)
    requires
        forall|j: int| 0 <= j < s.len() ==> !p(s[j]),
    ensures
        first_where(s, p) == -1,
    decreases s.len(),
{
    if s.len() > 0 {
        assert forall|j: int| 0 <= j < s.drop_first().len() implies s.drop_first()[j] == s[j + 1] by {}
        lemma_first_where_none(s.drop_first(), p);
    }
}

/// Index of the first occurrence of the string `x` in `v`, or `-1`.
pub open spec fn str_pos(v: Seq<String>, x: Seq<char>) -> int {
    first_where(v, |s: String| s@ == x)
}

/// Position of the first occurrence of `x` in `v`.
pub fn find_string(v: &Vec<String>, x: &str) -> (r: Option<usize>)
    ensures
        match r {
            Some(i) => i < v@.len() && str_pos(v@, x@) == i,
            None => str_pos(v@, x@) == -1,
        },
{
    let ghost p = (|s: String| s@ == x@);
    let n: usize = v.len();
    let mut i: usize = 0;
    while i < n
        invariant
            i <= n,
            n == v@.len(),
            forall|j: int| 0 <= j < i ==> !p(v@[j]),
            p == (|s: String| s@ == x@),
        decreases n - i,
    {
        if str_eq(v[i].as_str(), x) {
            proof {
                lemma_first_where_is(v@, p, i as int);
            }
            return Some(i);
        }
        i = i + 1;
    }
    proof {
        lemma_first_where_none(v@, p);
    }
    None
}

/// An element-for-element copy of a string list.
pub fn clone_strings(v: &Vec<String>) -> (r: Vec<String>)
    ensures
        r@ == v@,
{
    let n: usize = v.len();
    let mut r: Vec<String> = Vec::new();
    let mut i: usize = 0;
    while i < n
        invariant
            i <= n,
            n == v@.len(),
            r@.len() == i,
            forall|j: int| 0 <= j < i ==> r@[j] == v@[j],
        decreases n - i,
    {
        r.push(v[i].clone());
        i = i + 1;
    }
    assert(r@ =~= v@);
    r
}

/// String-slice equality, decided on the UTF-8 bytes and carried back to the
/// character sequences through the encoding round trip.
pub fn str_eq(a: &str, b: &str) -> (r: bool)
    ensures
        r == (a@ == b@),
{
    proof {
        vstd::utf8::encode_utf8_decode_utf8(a@);
        vstd::utf8::encode_utf8_decode_utf8(b@);
    }
    let ab = a.as_bytes();
    let bb = b.as_bytes();
    if ab.len() != bb.len() {
        return false;
    }
    let n: usize = ab.len();
    let mut i: usize = 0;
    while i < n
        invariant
            i <= n,
            n == ab@.len(),
            n == bb@.len(),
            ab@ == vstd::utf8::encode_utf8(a@),
            bb@ == vstd::utf8::encode_utf8(b@),
            vstd::utf8::decode_utf8(ab@) == a@,
            vstd::utf8::decode_utf8(bb@) == b@,
            forall|j: int| 0 <= j < i ==> ab@[j] == bb@[j],
        decreases n - i,
    {
        if ab[i] != bb[i] {
            return false;
        }
        i = i + 1;
    }
    assert(ab@ =~= bb@);
    true
}

/// Byte-wise XOR of two byte vectors; the result is as long as the shorter
/// input.
pub fn xor(a: Vec<u8>, b: Vec<u8>) -> (c: Vec<u8>)
    ensures
        c@ == xor_bytes(a@, b@),
{
    let n: usize = if a.len() <= b.len() { a.len() } else { b.len() };
    let mut c: Vec<u8> = Vec::new();
    let mut i: usize = 0;
    while i < n
        invariant
            i <= n,
            n <= a@.len(),
            n <= b@.len(),
            c@.len() == i,
            forall|j: int| 0 <= j < i ==> c@[j] == a@[j] ^ b@[j],
        decreases n - i,
    {
        c.push(a[i] ^ b[i]);
        i = i + 1;
    }
    assert(c@ =~= xor_bytes(a@, b@));
    c
}

} // verus!
