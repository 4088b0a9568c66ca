//! Bit masks seen as ascending sequences of bit positions.
use vstd::prelude::*;
use vstd::std_specs::bits::axiom_u32_trailing_zeros;

verus! {

/// Bit `t` of `m` is set.
pub open spec fn bit_set(m: u32, t: int) -> bool {
    0 <= t < 32 && (m >> (t as u32)) & 1 == 1
}

/// The positions below `n` of the set bits of `m`, in ascending order.
pub open spec fn bits_below(m: u32, n: int) -> Seq<int>
    decreases n,
{
    if n <= 0 {
        Seq::empty()
    } else {
        let rest = bits_below(m, n - 1);
        if bit_set(m, n - 1) {
            rest.push(n - 1)
        } else {
            rest
        }
    }
}

/// The positions of all set bits of `m`, in ascending order.
pub open spec fn mask_bits(m: u32) -> Seq<int> {
    bits_below(m, 32)
}

/// `bits_below(m, n)` lists exactly the set bits below `n`, each once, in
/// ascending order.
pub proof fn lemma_bits_below(m: u32, n: int)
    requires
        0 <= n <= 32,
    ensures
        bits_below(m, n).len() <= n,
        forall|i: int| 0 <= i < bits_below(m, n).len() ==> 0 <= #[trigger] bits_below(m, n)[i] < n,
        forall|i: int| 0 <= i < bits_below(m, n).len() ==> bit_set(m, #[trigger] bits_below(m, n)[i]),
        forall|i: int, j: int|
            0 <= i < j < bits_below(m, n).len() ==> bits_below(m, n)[i] < bits_below(m, n)[j],
        forall|t: int| 0 <= t < n && bit_set(m, t) ==> bits_below(m, n).contains(t),
    decreases n,
{
    if n > 0 {
        lemma_bits_below(m, n - 1);
        let rest = bits_below(m, n - 1);
        let s = bits_below(m, n);
        if bit_set(m, n - 1) {
            assert(s[rest.len() as int] == n - 1);
            assert forall|t: int| 0 <= t < n && bit_set(m, t) implies s.contains(t) by {
                if t < n - 1 {
                    let i = choose|i: int| 0 <= i < rest.len() && rest[i] == t;
                    assert(s[i] == t);
                }
            }
        }
    }
}

/// A mask with no bit set at or above `n` has all its bits below `n`.
pub proof fn lemma_bits_above(m: u32, n: int, k: int)
    requires
        0 <= n <= k <= 32,
        forall|t: int| n <= t < k ==> !bit_set(m, t),
    ensures
        bits_below(m, k) == bits_below(m, n),
    decreases k - n,
{
    if n < k {
        lemma_bits_above(m, n, k - 1);
    }
}

/// Clearing the lowest set bit of a mask drops the first of its bits.
pub proof fn lemma_clear_lowest(m: u32, t: int, n: int)
    requires
        0 <= n <= 32,
        bit_set(m, t),
        forall|j: int| 0 <= j < t ==> !bit_set(m, j),
    ensures
        bits_below(m, n) == if n <= t {
            Seq::<int>::empty()
        } else {
            seq![t] + bits_below(m ^ (1u32 << (t as u32)), n)
        },
    decreases n,
{
    let c = m ^ (1u32 << (t as u32));
    if n > 0 {
        lemma_clear_lowest(m, t, n - 1);
        let tu = t as u32;
        let ju = (n - 1) as u32;
        assert(((m ^ (1u32 << tu)) >> ju) & 1 == 1 <==> (ju != tu && (m >> ju) & 1 == 1) || (ju == tu
            && (m >> ju) & 1 != 1)) by (bit_vector)
            requires
                tu < 32,
                ju < 32,
        ;
        if n - 1 == t {
            assert(bits_below(c, n) == bits_below(c, n - 1));
            assert(bits_below(m, n - 1) == Seq::<int>::empty());
            assert forall|j: int| 0 <= j < n - 1 implies !bit_set(c, j) by {
                let ju2 = j as u32;
                assert(!bit_set(m, j));
                assert(((m ^ (1u32 << tu)) >> ju2) & 1 == (m >> ju2) & 1) by (bit_vector)
                    requires
                        tu < 32,
                        ju2 < 32,
                        ju2 != tu,
                ;
            }
            lemma_bits_above(c, 0, n - 1);
            assert(bits_below(m, n) =~= seq![t] + bits_below(c, n));
        } else if n - 1 > t {
            assert(bits_below(m, n) =~= seq![t] + bits_below(c, n));
        }
    }
}

/// The empty mask has no bits.
pub proof fn lemma_no_bits(n: int)
    requires
        0 <= n <= 32,
    ensures
        bits_below(0u32, n) == Seq::<int>::empty(),
    decreases n,
{
    if n > 0 {
        lemma_no_bits(n - 1);
        let ju = (n - 1) as u32;
        assert((0u32 >> ju) & 1 == 0) by (bit_vector);
    }
}

/// Intersecting with a mask keeps the bits that the mask admits.
pub proof fn lemma_mask_filter(h: u32, m: u32, p: spec_fn(int) -> bool, n: int)
    requires
        0 <= n <= 32,
        forall|t: int| 0 <= t < n ==> bit_set(m, t) == #[trigger] p(t),
    ensures
        bits_below(h & m, n) == bits_below(h, n).filter(p),
    decreases n,
{
    broadcast use Seq::lemma_filter_push;

    if n > 0 {
        lemma_mask_filter(h, m, p, n - 1);
        let ju = (n - 1) as u32;
        assert(((h & m) >> ju) & 1 == 1 <==> ((h >> ju) & 1 == 1 && (m >> ju) & 1 == 1))
            by (bit_vector)
            requires
                ju < 32,
        ;
        assert(p(n - 1) == bit_set(m, n - 1));
    } else {
        reveal(Seq::filter);
    }
}

/// The bits of an intersection, a union and a difference.
pub proof fn lemma_mask_ops(a: u32, b: u32, t: int)
    requires
        0 <= t < 32,
    ensures
        bit_set(a & b, t) == (bit_set(a, t) && bit_set(b, t)),
        bit_set(a | b, t) == (bit_set(a, t) || bit_set(b, t)),
        bit_set(a & !b, t) == (bit_set(a, t) && !bit_set(b, t)),
        bit_set(a ^ b, t) == (bit_set(a, t) != bit_set(b, t)),
{
    let tu = t as u32;
    assert((((a & b) >> tu) & 1 == 1 <==> ((a >> tu) & 1 == 1 && (b >> tu) & 1 == 1)) && (((a | b)
        >> tu) & 1 == 1 <==> ((a >> tu) & 1 == 1 || (b >> tu) & 1 == 1)) && (((a & !b) >> tu) & 1
        == 1 <==> ((a >> tu) & 1 == 1 && (b >> tu) & 1 != 1)) && (((a ^ b) >> tu) & 1 == 1 <==> (((a
        >> tu) & 1 == 1) != ((b >> tu) & 1 == 1)))) by (bit_vector)
        requires
            tu < 32,
    ;
}

/// The single bit of the mask `1 << k`.
pub proof fn lemma_single_bit(k: int, t: int)
    requires
        0 <= k < 32,
        0 <= t < 32,
    ensures
        bit_set(1u32 << (k as u32), t) == (t == k),
{
    let ku = k as u32;
    let tu = t as u32;
    assert((((1u32 << ku) >> tu) & 1 == 1) <==> tu == ku) by (bit_vector)
        requires
            ku < 32,
            tu < 32,
    ;
}

/// Toggling bit `t` changes the number of set bits below `n` by one where
/// `t` is below `n`: one more where the bit was clear, one less where it
/// was set.
pub proof fn lemma_toggle_len(m: u32, t: int, n: int)
    requires
        0 <= t < 32,
        0 <= n <= 32,
    ensures
        bits_below(m ^ (1u32 << (t as u32)), n).len() == bits_below(m, n).len() + if n <= t {
            0int
        } else if bit_set(m, t) {
            -1int
        } else {
            1int
        },
    decreases n,
{
    if n > 0 {
        lemma_toggle_len(m, t, n - 1);
        lemma_mask_ops(m, 1u32 << (t as u32), n - 1);
        lemma_single_bit(t, n - 1);
    }
}

/// The sequence grows strictly.
pub open spec fn ascending(s: Seq<int>) -> bool {
    forall|i: int, j: int| 0 <= i < j < s.len() ==> s[i] < s[j]
}

/// Two strictly growing sequences of the same members are the same.
pub proof fn lemma_ascending_equal(a: Seq<int>, b: Seq<int>)
    requires
        ascending(a),
        ascending(b),
        forall|x: int| a.contains(x) <==> b.contains(x),
    ensures
        a == b,
    decreases a.len(),
{
    if a.len() == 0 {
        if b.len() > 0 {
            assert(b.contains(b[0]));
        }
        assert(a =~= b);
    } else {
        let top = a.last();
        assert(a.contains(top));
        assert(b.contains(top));
        let jb = choose|j: int| 0 <= j < b.len() && b[j] == top;
        assert(b.contains(b.last()));
        assert(a.contains(b.last()));
        let ja = choose|j: int| 0 <= j < a.len() && a[j] == b.last();
        assert(b.last() == top);
        let a0 = a.drop_last();
        let b0 = b.drop_last();
        assert forall|x: int| a0.contains(x) <==> b0.contains(x) by {
            if a0.contains(x) {
                let i = choose|i: int| 0 <= i < a0.len() && a0[i] == x;
                assert(a[i] == x);
                assert(a.contains(x));
                let k = choose|k: int| 0 <= k < b.len() && b[k] == x;
                assert(k < b.len() - 1);
                assert(b0[k] == x);
            }
            if b0.contains(x) {
                let i = choose|i: int| 0 <= i < b0.len() && b0[i] == x;
                assert(b[i] == x);
                assert(b.contains(x));
                let k = choose|k: int| 0 <= k < a.len() && a[k] == x;
                assert(k < a.len() - 1);
                assert(a0[k] == x);
            }
        }
        lemma_ascending_equal(a0, b0);
        assert(a =~= a0.push(top));
        assert(b =~= b0.push(top));
    }
}

/// The bits of a mask are the strictly growing sequence of the positions at
/// which the mask has a bit.
pub proof fn lemma_mask_bits_are(m: u32, bits: Seq<int>)
    requires
        ascending(bits),
        forall|t: int| bits.contains(t) <==> bit_set(m, t),
    ensures
        mask_bits(m) == bits,
{
    lemma_bits_below(m, 32);
    let found = mask_bits(m);
    assert forall|x: int| found.contains(x) <==> bits.contains(x) by {
        if found.contains(x) {
            let i = choose|i: int| 0 <= i < found.len() && found[i] == x;
            assert(bit_set(m, found[i]));
        }
    }
    lemma_ascending_equal(found, bits);
}

/// The index of the lowest set bit of a non-empty mask, and the mask without
/// that bit.
pub fn take_lowest(m: u32) -> (r: (usize, u32))
    requires
        m != 0,
    ensures
        mask_bits(m).len() > 0,
        r.0 == mask_bits(m)[0],
        r.0 < 32,
        r.1 == m ^ (1u32 << (r.0 as u32)),
        mask_bits(r.1) == mask_bits(m).skip(1),
        r.1 < m,
{
    broadcast use axiom_u32_trailing_zeros;

    let tz: u32 = m.trailing_zeros();
    assert(tz < 32);
    let rest: u32 = m ^ (1u32 << tz);
    proof {
        assert(bit_set(m, tz as int));
        assert forall|j: int| 0 <= j < tz implies !bit_set(m, j) by {
            let ju = j as u32;
            assert((m >> ju) & 1u32 == 0u32);
            assert(0u32 != 1u32);
        }
        lemma_clear_lowest(m, tz as int, 32);
        assert(mask_bits(m) == seq![tz as int] + mask_bits(rest));
        assert(mask_bits(rest) =~= mask_bits(m).skip(1));
        assert((m ^ (1u32 << tz)) < m) by (bit_vector)
            requires
                tz < 32,
                (m >> tz) & 1 == 1,
        ;
    }
    (tz as usize, rest)
}

} // verus!
