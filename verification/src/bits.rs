use vstd::prelude::*;

verus! {

/// A cell's domain: a packed bit vector with one bit per tile identity.
/// The representation inside is `bitvec`'s vector, which Verus does not
/// look into; everything stated about a value goes through `domain_bits`.
#[verifier::external_body]
pub struct Bits {
    inner: bitvec::vec::BitVec,
}

/// The sequence of bits a `bitvec` vector holds, in index order.
pub uninterp spec fn domain_bits(bv: Bits) -> Seq<bool>;

/// The number of set bits in a sequence: a cell's remaining possibilities.
pub open spec fn popcount(s: Seq<bool>) -> nat
    decreases s.len(),
{
    if s.len() == 0 {
        0
    } else {
        popcount(s.drop_last()) + if s.last() {
            1nat
        } else {
            0nat
        }
    }
}

/// Pointwise AND of two equal-length bit sequences.
pub open spec fn seq_and(a: Seq<bool>, b: Seq<bool>) -> Seq<bool> {
    Seq::new(a.len(), |i: int| a[i] && b[i])
}

/// A sequence with every bit set to `value`.
pub open spec fn const_bits(n: nat, value: bool) -> Seq<bool> {
    Seq::new(n, |i: int| value)
}

/// A sequence with exactly the bit at `t` set.
pub open spec fn unit_bits(n: nat, t: int) -> Seq<bool> {
    Seq::new(n, |i: int| i == t)
}

/// Whether a domain has exactly one possibility left.
pub open spec fn is_resolved(s: Seq<bool>) -> bool {
    popcount(s) == 1
}

/// The set index of a resolved domain (meaningful only when exactly one
/// bit is set).
pub open spec fn resolved_id(s: Seq<bool>) -> int {
    choose|i: int| 0 <= i < s.len() && s[i]
}

/// The indices of the set bits, in increasing order.
pub open spec fn domain_indices(s: Seq<bool>) -> Seq<int>
    decreases s.len(),
{
    if s.len() == 0 {
        Seq::empty()
    } else if s.last() {
        domain_indices(s.drop_last()).push(s.len() - 1)
    } else {
        domain_indices(s.drop_last())
    }
}

/// Relies on `bitvec::vec::BitVec::repeat`: builds a vector of `size`
/// copies of `default_value`.
#[verifier::external_body]
pub(crate) fn filled_bitvec(size: usize, default_value: bool) -> (r: Bits)
    ensures
        domain_bits(r) == const_bits(size as nat, default_value),
{
    Bits { inner: bitvec::vec::BitVec::repeat(default_value, size) }
}

/// Relies on `bitvec::slice::BitSlice::set`: writes one bit in place; it
/// panics out of range, so the index is required to be in range.
#[verifier::external_body]
pub(crate) fn bv_set(bv: &mut Bits, index: usize, value: bool)
    requires
        index < domain_bits(*old(bv)).len(),
    ensures
        domain_bits(*final(bv)) == domain_bits(*old(bv)).update(index as int, value),
{
    bv.inner.set(index, value);
}

/// Relies on `bitvec`'s `Index<usize>` for bit slices: reads one bit; it
/// panics out of range, so the index is required to be in range.
#[verifier::external_body]
pub(crate) fn bv_get(bv: &Bits, index: usize) -> (r: bool)
    requires
        index < domain_bits(*bv).len(),
    ensures
        r == domain_bits(*bv)[index as int],
{
    bv.inner[index]
}

/// Relies on `bitvec::slice::BitSlice::count_ones`: the number of bits set
/// to one.
#[verifier::external_body]
pub(crate) fn bv_count_ones(bv: &Bits) -> (r: usize)
    ensures
        r == popcount(domain_bits(*bv)),
{
    bv.inner.count_ones()
}

/// Relies on `bitvec`'s `BitAndAssign`: pointwise AND into the left side;
/// with equal lengths no zero-extension of the right side occurs.
#[verifier::external_body]
pub(crate) fn bv_and_assign(bv: &mut Bits, other: &Bits)
    requires
        domain_bits(*other).len() == domain_bits(*old(bv)).len(),
    ensures
        domain_bits(*final(bv)) == seq_and(domain_bits(*old(bv)), domain_bits(*other)),
{
    bv.inner &= &other.inner;
}

/// Relies on `bitvec::slice::BitSlice::fill`: sets every bit to `value`.
#[verifier::external_body]
pub(crate) fn bv_fill(bv: &mut Bits, value: bool)
    ensures
        domain_bits(*final(bv)) == const_bits(domain_bits(*old(bv)).len(), value),
{
    bv.inner.fill(value);
}

/// Relies on `bitvec::vec::BitVec::len`: the number of bits stored.
#[verifier::external_body]
pub(crate) fn bv_len(bv: &Bits) -> (r: usize)
    ensures
        r == domain_bits(*bv).len(),
{
    bv.inner.len()
}

/// Extracts the identity a resolved domain holds; nothing when the domain
/// still holds none or several.
pub(crate) fn extract_index(from: &Bits) -> (r: Option<usize>)
    ensures
        is_resolved(domain_bits(*from)) ==> r == Some(resolved_id(domain_bits(*from)) as usize),
        !is_resolved(domain_bits(*from)) ==> r is None,
{
    let ones = bv_count_ones(from);
    if ones != 1 {
        return None;
    }
    proof {
        lemma_resolved_id(domain_bits(*from));
    }
    let len = bv_len(from);
    let mut i: usize = 0;
    while i < len
        invariant
            is_resolved(domain_bits(*from)),
            0 <= resolved_id(domain_bits(*from)) < len,
            len == domain_bits(*from).len(),
            forall|j: int| 0 <= j < i ==> !domain_bits(*from)[j],
            i <= len,
        decreases len - i,
    {
        if bv_get(from, i) {
            proof {
                lemma_resolved_id(domain_bits(*from));
                assert(i as int == resolved_id(domain_bits(*from)));
            }
            return Some(i);
        }
        i += 1;
    }
    proof {
        assert(false);
    }
    None
}

/// Prefix recurrence of the set-bit index list.
pub proof fn lemma_domain_indices_take(s: Seq<bool>, i: int)
    requires
        0 <= i < s.len(),
    ensures
        domain_indices(s.take(i + 1)) == if s[i] {
            domain_indices(s.take(i)).push(i)
        } else {
            domain_indices(s.take(i))
        },
{
    assert(s.take(i + 1).drop_last() =~= s.take(i));
    assert(s.take(i + 1).last() == s[i]);
}

/// The still-possible identities of a domain, in increasing order.
pub(crate) fn domain_list(from: &Bits) -> (r: Vec<usize>)
    ensures
        r@.map_values(|u: usize| u as int) == domain_indices(domain_bits(*from)),
        forall|e: int| 0 <= e < r@.len() ==> #[trigger] r@[e] < domain_bits(*from).len(),
{
    let ghost s = domain_bits(*from);
    let len = bv_len(from);
    let mut r: Vec<usize> = Vec::new();
    proof {
        assert(s.take(0) =~= Seq::<bool>::empty());
        assert(r@.map_values(|u: usize| u as int) =~= domain_indices(s.take(0)));
    }
    let mut i: usize = 0;
    while i < len
        invariant
            i <= len,
            len == s.len(),
            s == domain_bits(*from),
            r@.map_values(|u: usize| u as int) == domain_indices(s.take(i as int)),
            forall|e: int| 0 <= e < r@.len() ==> #[trigger] r@[e] < len,
        decreases len - i,
    {
        let b = bv_get(from, i);
        proof {
            lemma_domain_indices_take(s, i as int);
        }
        if b {
            let ghost prev = r@;
            r.push(i);
            proof {
                assert(r@.map_values(|u: usize| u as int) =~= prev.map_values(
                    |u: usize| u as int,
                ).push(i as int));
            }
        }
        i += 1;
    }
    proof {
        assert(s.take(len as int) =~= s);
    }
    r
}

/// No bit sequence has more set bits than its length.
pub proof fn lemma_popcount_le_len(s: Seq<bool>)
    ensures
        popcount(s) <= s.len(),
    decreases s.len(),
{
    if s.len() > 0 {
        lemma_popcount_le_len(s.drop_last());
    }
}

/// A sequence has no set bits exactly when its popcount is zero.
pub proof fn lemma_popcount_zero(s: Seq<bool>)
    ensures
        (popcount(s) == 0) <==> (forall|i: int| 0 <= i < s.len() ==> !s[i]),
    decreases s.len(),
{
    if s.len() > 0 {
        lemma_popcount_zero(s.drop_last());
        assert(forall|i: int| 0 <= i < s.len() - 1 ==> s.drop_last()[i] == s[i]);
        assert(s.last() == s[s.len() - 1]);
    }
}

/// A domain with popcount one has exactly one set bit; the returned value
/// is its index.
pub proof fn lemma_resolved_witness(s: Seq<bool>) -> (i: int)
    requires
        popcount(s) == 1,
    ensures
        0 <= i < s.len(),
        s[i],
        forall|j: int| 0 <= j < s.len() && s[j] ==> j == i,
    decreases s.len(),
{
    assert(s.len() > 0);
    if s.last() {
        assert(popcount(s.drop_last()) == 0);
        lemma_popcount_zero(s.drop_last());
        assert(forall|j: int| 0 <= j < s.len() - 1 ==> s.drop_last()[j] == s[j]);
        s.len() - 1
    } else {
        let i = lemma_resolved_witness(s.drop_last());
        assert(forall|j: int| 0 <= j < s.len() - 1 ==> s.drop_last()[j] == s[j]);
        i
    }
}

/// For a resolved domain, `resolved_id` is the unique set bit.
pub proof fn lemma_resolved_id(s: Seq<bool>)
    requires
        popcount(s) == 1,
    ensures
        0 <= resolved_id(s) < s.len(),
        s[resolved_id(s)],
        forall|j: int| 0 <= j < s.len() && s[j] ==> j == resolved_id(s),
{
    let i = lemma_resolved_witness(s);
    assert(0 <= i < s.len() && s[i]);
    assert(resolved_id(s) == i);
}

/// Narrowing a domain bit by bit never raises its popcount.
pub proof fn lemma_popcount_pointwise_le(a: Seq<bool>, b: Seq<bool>)
    requires
        a.len() == b.len(),
        forall|i: int| 0 <= i < a.len() && a[i] ==> b[i],
    ensures
        popcount(a) <= popcount(b),
    decreases a.len(),
{
    if a.len() > 0 {
        assert(forall|i: int| 0 <= i < a.len() - 1 ==> a.drop_last()[i] == a[i]);
        assert(forall|i: int| 0 <= i < b.len() - 1 ==> b.drop_last()[i] == b[i]);
        lemma_popcount_pointwise_le(a.drop_last(), b.drop_last());
    }
}

/// A full domain's popcount is its length.
pub proof fn lemma_popcount_full(n: nat)
    ensures
        popcount(const_bits(n, true)) == n,
    decreases n,
{
    if n > 0 {
        lemma_popcount_full((n - 1) as nat);
        assert(const_bits(n, true).drop_last() =~= const_bits((n - 1) as nat, true));
    }
}

/// A single-bit domain has popcount one.
pub proof fn lemma_popcount_unit(n: nat, t: int)
    requires
        0 <= t < n,
    ensures
        popcount(unit_bits(n, t)) == 1,
    decreases n,
{
    if t == n - 1 {
        assert(unit_bits(n, t).drop_last() =~= const_bits((n - 1) as nat, false));
        lemma_popcount_zero(const_bits((n - 1) as nat, false));
        assert(unit_bits(n, t).last());
    } else {
        lemma_popcount_unit((n - 1) as nat, t);
        assert(unit_bits(n, t).drop_last() =~= unit_bits((n - 1) as nat, t));
        assert(!unit_bits(n, t).last());
    }
}

/// The set-bit index list is as long as the popcount, and each entry is a
/// set bit in range.
pub proof fn lemma_domain_indices(s: Seq<bool>)
    ensures
        domain_indices(s).len() == popcount(s),
        forall|k: int|
            0 <= k < domain_indices(s).len() ==> 0 <= #[trigger] domain_indices(s)[k] < s.len()
                && s[domain_indices(s)[k]],
    decreases s.len(),
{
    if s.len() > 0 {
        lemma_domain_indices(s.drop_last());
        assert(forall|i: int| 0 <= i < s.len() - 1 ==> s.drop_last()[i] == s[i]);
    }
}

} // verus!
