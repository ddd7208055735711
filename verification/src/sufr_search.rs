//! Search kernel: byte comparison of a query against suffixes of the text,
//! and the binary searches that find the rank range of the matching
//! suffixes, with the usual two-sided match-depth acceleration.

use vstd::prelude::*;

use crate::file_access::FileAccess;

verus! {

/// Outcome of comparing a query against one suffix.
#[derive(Clone, Copy, Debug, PartialEq, Eq, Structural)]
pub enum Cmp {
    Less,
    Equal,
    Greater,
}

/// Compares `q[d..]` against `text[s + d ..]`, byte by byte.  `Equal`
/// means the rest of the query is a prefix of the rest of the suffix; the
/// end of the text orders below every byte.
pub open spec fn suffix_cmp_from(q: Seq<u8>, t: Seq<u8>, s: int, d: nat) -> Cmp
    decreases q.len() - d,
    when d <= q.len()
{
    if d == q.len() {
        Cmp::Equal
    } else if s + d >= t.len() {
        Cmp::Greater
    } else if q[d as int] < t[s + d] {
        Cmp::Less
    } else if q[d as int] > t[s + d] {
        Cmp::Greater
    } else {
        suffix_cmp_from(q, t, s, (d + 1) as nat)
    }
}

/// Comparison of the whole query against the suffix at `s`.
pub open spec fn suffix_cmp(q: Seq<u8>, t: Seq<u8>, s: int) -> Cmp {
    suffix_cmp_from(q, t, s, 0)
}

/// The query matches the suffix at `s`: it is a prefix of `t[s..]`.
pub open spec fn is_match(q: Seq<u8>, t: Seq<u8>, s: int) -> bool {
    suffix_cmp(q, t, s) == Cmp::Equal
}

/// First depth at or after `d` where query and suffix stop agreeing.
pub open spec fn match_depth_from(q: Seq<u8>, t: Seq<u8>, s: int, d: nat) -> nat
    decreases q.len() - d,
    when d <= q.len()
{
    if d == q.len() {
        d
    } else if s + d >= t.len() {
        d
    } else if q[d as int] != t[s + d] {
        d
    } else {
        match_depth_from(q, t, s, (d + 1) as nat)
    }
}

/// Compares the suffixes at `a` and `b` from depth `d` on.
pub open spec fn suffix_order_from(t: Seq<u8>, a: int, b: int, d: nat) -> Cmp
    decreases t.len() - d,
    when d <= t.len() && 0 <= a && 0 <= b
{
    if a + d >= t.len() && b + d >= t.len() {
        Cmp::Equal
    } else if a + d >= t.len() {
        Cmp::Less
    } else if b + d >= t.len() {
        Cmp::Greater
    } else if t[a + d] < t[b + d] {
        Cmp::Less
    } else if t[a + d] > t[b + d] {
        Cmp::Greater
    } else {
        suffix_order_from(t, a, b, (d + 1) as nat)
    }
}

/// Lexicographic order of the suffixes starting at `a` and `b`.
pub open spec fn suffix_order(t: Seq<u8>, a: int, b: int) -> Cmp {
    suffix_order_from(t, a, b, 0)
}

/// Length of the longest common prefix of the suffixes at `a` and `b`.
pub open spec fn pair_depth_from(t: Seq<u8>, a: int, b: int, d: nat) -> nat
    decreases t.len() - d,
    when d <= t.len() && 0 <= a && 0 <= b
{
    if a + d >= t.len() || b + d >= t.len() {
        d
    } else if t[a + d] != t[b + d] {
        d
    } else {
        pair_depth_from(t, a, b, (d + 1) as nat)
    }
}

pub open spec fn suffix_lcp(t: Seq<u8>, a: int, b: int) -> nat {
    pair_depth_from(t, a, b, 0)
}

/// Every entry of `arr` starts inside the text.
pub open spec fn sa_in_bounds(arr: Seq<u64>, tlen: nat) -> bool {
    forall|i: int| 0 <= i < arr.len() ==> #[trigger] arr[i] < tlen
}

/// The suffixes named by `arr` are in strictly ascending order.
pub open spec fn sa_sorted(t: Seq<u8>, arr: Seq<u64>) -> bool {
    forall|i: int, j: int|
        0 <= i < j < arr.len() ==> suffix_order(t, #[trigger] arr[i] as int, #[trigger] arr[j] as int)
            == Cmp::Less
}

/// The first `k` bytes of the query agree with the suffix at `s`.
pub open spec fn prefix_match(q: Seq<u8>, t: Seq<u8>, s: int, k: nat) -> bool {
    &&& s + k <= t.len()
    &&& forall|j: int| 0 <= j < k ==> q[j] == #[trigger] t[s + j]
}

/// `(lo, hi)` bounds exactly the ranks of `arr` whose suffixes the query
/// matches; smaller suffixes lie below, larger ones above.
pub open spec fn range_correct(q: Seq<u8>, t: Seq<u8>, arr: Seq<u64>, lo: int, hi: int) -> bool {
    &&& 0 <= lo <= hi <= arr.len()
    &&& forall|r: int| 0 <= r < lo ==> suffix_cmp(q, t, #[trigger] arr[r] as int) == Cmp::Greater
    &&& forall|r: int| lo <= r < hi ==> suffix_cmp(q, t, #[trigger] arr[r] as int) == Cmp::Equal
    &&& forall|r: int|
        hi <= r < arr.len() ==> suffix_cmp(q, t, #[trigger] arr[r] as int) == Cmp::Less
}

/// Ranks whose stored LCP lies below `q`: the representatives kept by
/// subsampling, in ascending order.
pub open spec fn spec_kept(lcp: Seq<u64>, q: u64) -> Seq<int>
    decreases lcp.len(),
{
    if lcp.len() == 0 {
        Seq::empty()
    } else {
        let prefix = spec_kept(lcp.drop_last(), q);
        if lcp.last() < q {
            prefix.push(lcp.len() - 1)
        } else {
            prefix
        }
    }
}

/// The kept ranks lie inside `[0, lcp.len())`, ascend strictly, and are
/// exactly the ranks whose LCP lies below `q`.
pub proof fn lemma_kept_props(lcp: Seq<u64>, q: u64)
    ensures
        forall|k: int|
            0 <= k < spec_kept(lcp, q).len() ==> 0 <= #[trigger] spec_kept(lcp, q)[k] < lcp.len(),
        forall|k: int|
            0 <= k < spec_kept(lcp, q).len() ==> lcp[#[trigger] spec_kept(lcp, q)[k]] < q,
        forall|k1: int, k2: int|
            0 <= k1 < k2 < spec_kept(lcp, q).len() ==> #[trigger] spec_kept(lcp, q)[k1]
                < #[trigger] spec_kept(lcp, q)[k2],
        lcp.len() > 0 && lcp[0] < q ==> spec_kept(lcp, q).len() > 0 && spec_kept(lcp, q)[0] == 0,
    decreases lcp.len(),
{
    if lcp.len() > 0 {
        lemma_kept_props(lcp.drop_last(), q);
        assert forall|k: int| 0 <= k < spec_kept(lcp, q).len() implies 0 <= #[trigger] spec_kept(
            lcp,
            q,
        )[k] < lcp.len() && lcp[spec_kept(lcp, q)[k]] < q by {
            if k < spec_kept(lcp.drop_last(), q).len() {
                assert(spec_kept(lcp, q)[k] == spec_kept(lcp.drop_last(), q)[k]);
                assert(lcp.drop_last()[spec_kept(lcp.drop_last(), q)[k]] == lcp[spec_kept(
                    lcp,
                    q,
                )[k]]);
            }
        }
    }
}

/// The array a search runs over: the stored suffix array in low-memory
/// mode, else the resident one.
pub open spec fn source_view(file: FileAccess, mem: Seq<u64>, low_memory: bool) -> Seq<u64> {
    if low_memory {
        file@
    } else {
        mem
    }
}

/// Comparing from a deeper start is the same once the bytes above it are
/// known to agree.
pub proof fn lemma_cmp_from_prefix(q: Seq<u8>, t: Seq<u8>, s: int, d: nat, k: nat)
    requires
        d <= k <= q.len(),
        prefix_match(q, t, s, k),
    ensures
        suffix_cmp_from(q, t, s, d) == suffix_cmp_from(q, t, s, k),
        match_depth_from(q, t, s, d) == match_depth_from(q, t, s, k),
    decreases k - d,
{
    if d < k {
        assert(q[d as int] == t[s + d]);
        assert(s + d < t.len());
        lemma_cmp_from_prefix(q, t, s, (d + 1) as nat, k);
    }
}

/// A query that lies above the larger of two ordered suffixes lies above
/// the smaller too, and one below the smaller lies below the larger.
pub proof fn lemma_cmp_transfer(q: Seq<u8>, t: Seq<u8>, a: int, b: int, d: nat)
    requires
        0 <= a,
        0 <= b,
        d <= q.len(),
        d <= t.len(),
        suffix_order_from(t, a, b, d) == Cmp::Less,
    ensures
        suffix_cmp_from(q, t, b, d) == Cmp::Greater ==> suffix_cmp_from(q, t, a, d)
            == Cmp::Greater,
        suffix_cmp_from(q, t, a, d) == Cmp::Less ==> suffix_cmp_from(q, t, b, d) == Cmp::Less,
    decreases q.len() - d,
{
    if d == q.len() {
        // both comparisons are Equal; nothing to show
    } else if a + d >= t.len() {
        // the smaller suffix is exhausted: the query lies above it
    } else if b + d >= t.len() {
        // contradicts the order being Less
    } else if t[a + d] < t[b + d] {
        // a strict byte step decides both claims without recursion
    } else {
        lemma_cmp_transfer(q, t, a, b, (d + 1) as nat);
    }
}

/// A suffix between two suffixes that both agree with the query on `k`
/// bytes agrees with it on those bytes as well.
pub proof fn lemma_between_prefix(q: Seq<u8>, t: Seq<u8>, a: int, m: int, b: int, k: nat, d: nat)
    requires
        0 <= a,
        0 <= m,
        0 <= b,
        d <= k <= q.len(),
        prefix_match(q, t, a, k),
        prefix_match(q, t, b, k),
        suffix_order_from(t, a, m, d) != Cmp::Greater,
        suffix_order_from(t, m, b, d) != Cmp::Greater,
        m + d <= t.len(),
        forall|j: int| 0 <= j < d ==> q[j] == #[trigger] t[m + j],
    ensures
        prefix_match(q, t, m, k),
    decreases k - d,
{
    if d == k {
        assert(prefix_match(q, t, m, k));
    } else {
        assert(q[d as int] == t[a + d]);
        assert(a + d < t.len());
        assert(q[d as int] == t[b + d]);
        assert(b + d < t.len());
        assert(m + d < t.len()) by {
            if m + d >= t.len() {
                assert(suffix_order_from(t, a, m, d) == Cmp::Greater);
            }
        }
        assert(t[a + d] <= t[m + d]);
        assert(t[m + d] <= t[b + d]);
        assert(t[m + d] == q[d as int]);
        lemma_between_prefix(q, t, a, m, b, k, (d + 1) as nat);
    }
}

/// The byte test an integrity check makes at depth `d`: the suffix at `a`
/// orders below the one at `b` when `b` still has a byte there and `a`
/// does not, or `a`'s byte there is smaller.
pub open spec fn spec_is_less_at(t: Seq<u8>, a: int, b: int, d: int) -> bool {
    if b + d < t.len() {
        if a + d < t.len() {
            t[a + d] < t[b + d]
        } else {
            true
        }
    } else {
        false
    }
}

/// The byte test at the true longest-common-prefix depth decides the
/// lexicographic order of the two suffixes.
pub proof fn lemma_check_step(t: Seq<u8>, a: int, b: int)
    requires
        0 <= a,
        0 <= b,
    ensures
        spec_is_less_at(t, a, b, suffix_lcp(t, a, b) as int) <==> suffix_order(t, a, b)
            == Cmp::Less,
{
    let p = suffix_lcp(t, a, b);
    lemma_pair_depth_facts(t, a, b, 0);
    if p > 0 {
        lemma_order_from_prefix(t, a, b, 0, p);
    }
}

/// The longest common prefix does not depend on the order of its two
/// suffixes.
pub proof fn lemma_pair_depth_sym(t: Seq<u8>, a: int, b: int, d: nat)
    requires
        0 <= a,
        0 <= b,
        d <= t.len(),
    ensures
        pair_depth_from(t, a, b, d) == pair_depth_from(t, b, a, d),
    decreases t.len() - d,
{
    if a + d < t.len() && b + d < t.len() && t[a + d] == t[b + d] {
        lemma_pair_depth_sym(t, a, b, (d + 1) as nat);
    }
}

/// Suffixes that start at or past the end of the text are all alike: they
/// are empty.
pub proof fn lemma_pair_big_start(t: Seq<u8>, a1: int, a2: int, b: int)
    requires
        a1 >= t.len(),
        a2 >= t.len(),
        0 <= b,
    ensures
        suffix_lcp(t, a1, b) == suffix_lcp(t, a2, b),
        suffix_lcp(t, b, a1) == suffix_lcp(t, b, a2),
{
}

/// The stored LCP array is faithful: entry `j` is the longest common
/// prefix of the suffixes at ranks `j - 1` and `j`, and entry 0 is zero.
pub open spec fn lcp_matches(t: Seq<u8>, sa: Seq<u64>, lcp: Seq<u64>) -> bool {
    &&& sa.len() == lcp.len()
    &&& (lcp.len() > 0 ==> lcp[0] == 0)
    &&& forall|j: int|
        1 <= j < lcp.len() ==> #[trigger] lcp[j] == suffix_lcp(t, sa[j - 1] as int, sa[j] as int)
}

/// The full-array rank that compressed rank `k` expands to; one past the
/// end maps to `n`.
pub open spec fn expand_rank(kept: Seq<int>, k: int, n: int) -> int {
    if k < kept.len() {
        kept[k]
    } else {
        n
    }
}

/// Two suffixes that agree on at least `p` bytes compare alike against
/// any query of at most `p` bytes.
pub proof fn lemma_cmp_same_prefix(q: Seq<u8>, t: Seq<u8>, a: int, b: int, p: nat, d: nat)
    requires
        0 <= a,
        0 <= b,
        d <= q.len() <= p,
        a + p <= t.len(),
        b + p <= t.len(),
        forall|j: int| 0 <= j < p ==> t[a + j] == #[trigger] t[b + j],
    ensures
        suffix_cmp_from(q, t, a, d) == suffix_cmp_from(q, t, b, d),
    decreases q.len() - d,
{
    if d < q.len() {
        assert(t[a + d] == t[b + d]);
        if q[d as int] == t[a + d] {
            lemma_cmp_same_prefix(q, t, a, b, p, (d + 1) as nat);
        }
    }
}

/// What the longest-common-prefix depth of two suffixes gives: matching
/// bytes up to it, in-bounds endpoints, and a divergence right after.
pub proof fn lemma_pair_depth_facts(t: Seq<u8>, a: int, b: int, d: nat)
    requires
        0 <= a,
        0 <= b,
        d <= t.len(),
    ensures
        ({
            let p = pair_depth_from(t, a, b, d);
            &&& d <= p <= t.len()
            &&& (forall|j: int| d <= j < p ==> t[a + j] == #[trigger] t[b + j])
            &&& (p > d ==> a + p <= t.len() && b + p <= t.len())
            &&& (a + p >= t.len() || b + p >= t.len() || t[a + p] != t[b + p])
        }),
    decreases t.len() - d,
{
    if a + d >= t.len() || b + d >= t.len() {
    } else if t[a + d] != t[b + d] {
    } else {
        lemma_pair_depth_facts(t, a, b, (d + 1) as nat);
    }
}

/// Ordering two suffixes from a deeper start is the same once the bytes
/// above it agree and stay inside the text.
pub proof fn lemma_order_from_prefix(t: Seq<u8>, a: int, b: int, d: nat, k: nat)
    requires
        0 <= a,
        0 <= b,
        d <= k,
        a + k <= t.len(),
        b + k <= t.len(),
        forall|j: int| d <= j < k ==> t[a + j] == #[trigger] t[b + j],
    ensures
        suffix_order_from(t, a, b, d) == suffix_order_from(t, a, b, k),
    decreases k - d,
{
    if d < k {
        assert(t[a + d] == t[b + d]);
        lemma_order_from_prefix(t, a, b, (d + 1) as nat, k);
    }
}

/// Index into the kept ranks of a rank whose LCP lies below `q`.
proof fn lemma_kept_index(lcp: Seq<u64>, q: u64, i: int) -> (k: int)
    requires
        0 <= i < lcp.len(),
        lcp[i] < q,
    ensures
        ({
            let kept = spec_kept(lcp, q);
            &&& 0 <= k < kept.len()
            &&& kept[k] == i
            &&& (k + 1 < kept.len() ==> i < kept[k + 1])
        }),
    decreases lcp.len(),
{
    lemma_kept_props(lcp, q);
    if i == lcp.len() - 1 {
        spec_kept(lcp, q).len() - 1
    } else {
        assert(lcp.drop_last()[i] == lcp[i]);
        let k = lemma_kept_index(lcp.drop_last(), q, i);
        assert(spec_kept(lcp, q)[k] == spec_kept(lcp.drop_last(), q)[k]);
        if k + 1 < spec_kept(lcp.drop_last(), q).len() {
            assert(spec_kept(lcp, q)[k + 1] == spec_kept(lcp.drop_last(), q)[k + 1]);
        }
        k
    }
}

/// Every rank lies in the block of one kept representative, and compares
/// against a short query exactly as its representative does.
proof fn lemma_blocks(q: u64, qry: Seq<u8>, t: Seq<u8>, sa: Seq<u64>, lcp: Seq<u64>, i: int) -> (k:
    int)
    requires
        sa_in_bounds(sa, t.len()),
        lcp_matches(t, sa, lcp),
        q >= 1,
        qry.len() <= q,
        0 <= i < sa.len(),
    ensures
        ({
            let kept = spec_kept(lcp, q);
            &&& 0 <= k < kept.len()
            &&& kept[k] <= i
            &&& (k + 1 < kept.len() ==> i < kept[k + 1])
            &&& suffix_cmp(qry, t, sa[i] as int) == suffix_cmp(qry, t, sa[kept[k]] as int)
        }),
    decreases i,
{
    lemma_kept_props(lcp, q);
    if lcp[i] < q {
        lemma_kept_index(lcp, q, i)
    } else {
        // A high LCP forces i > 0 and a shared prefix with the rank before.
        let a = sa[i - 1] as int;
        let b = sa[i] as int;
        lemma_pair_depth_facts(t, a, b, 0);
        assert(suffix_lcp(t, a, b) >= q);
        lemma_cmp_same_prefix(qry, t, a, b, q as nat, 0);
        let k = lemma_blocks(q, qry, t, sa, lcp, i - 1);
        let ghost kept = spec_kept(lcp, q);
        if k + 1 < kept.len() {
            assert(lcp[kept[k + 1]] < q);
            assert(kept[k + 1] != i);
        }
        k
    }
}

/// A matching rank range found over the subsampled suffix array expands,
/// block by block, to the matching rank range of the full one.
pub proof fn lemma_compressed_range(
    qry: Seq<u8>,
    t: Seq<u8>,
    sa: Seq<u64>,
    lcp: Seq<u64>,
    mem: Seq<u64>,
    q: u64,
    l: int,
    h: int,
)
    requires
        sa_in_bounds(sa, t.len()),
        lcp_matches(t, sa, lcp),
        q >= 1,
        qry.len() <= q,
        mem.len() == spec_kept(lcp, q).len(),
        forall|k: int|
            0 <= k < mem.len() ==> #[trigger] mem[k] == sa[spec_kept(lcp, q)[k]],
        range_correct(qry, t, mem, l, h),
    ensures
        range_correct(
            qry,
            t,
            sa,
            expand_rank(spec_kept(lcp, q), l, sa.len() as int),
            expand_rank(spec_kept(lcp, q), h, sa.len() as int),
        ),
{
    let kept = spec_kept(lcp, q);
    let n = sa.len() as int;
    lemma_kept_props(lcp, q);
    let el = expand_rank(kept, l, n);
    let eh = expand_rank(kept, h, n);
    assert(0 <= el <= n);
    assert(el <= eh) by {
        if l < h {
            if h < kept.len() {
                assert(kept[l] < kept[h]);
            }
        }
    }
    assert forall|r: int| 0 <= r < el implies suffix_cmp(qry, t, #[trigger] sa[r] as int)
        == Cmp::Greater by {
        let k = lemma_blocks(q, qry, t, sa, lcp, r);
        if k >= l {
            assert(l < kept.len());
            if k > l {
                assert(kept[l] < kept[k]);
            }
            assert(r >= kept[l]);
        }
        assert(k < l);
        assert(suffix_cmp(qry, t, mem[k] as int) == Cmp::Greater);
    }
    assert forall|r: int| el <= r < eh implies suffix_cmp(qry, t, #[trigger] sa[r] as int)
        == Cmp::Equal by {
        let k = lemma_blocks(q, qry, t, sa, lcp, r);
        assert(l < kept.len());
        if k < l {
            if k + 1 < kept.len() {
                if k + 1 < l {
                    assert(kept[k + 1] < kept[l]);
                }
                assert(r < kept[l]);
            } else {
                assert(l <= k);
            }
        }
        assert(k >= l);
        if k >= h {
            assert(h < kept.len());
            if k > h {
                assert(kept[h] < kept[k]);
            }
            assert(r >= kept[h]);
        }
        assert(k < h);
        assert(suffix_cmp(qry, t, mem[k] as int) == Cmp::Equal);
    }
    assert forall|r: int| eh <= r < n implies suffix_cmp(qry, t, #[trigger] sa[r] as int)
        == Cmp::Less by {
        let k = lemma_blocks(q, qry, t, sa, lcp, r);
        if k < h {
            if k + 1 < kept.len() {
                if h < kept.len() {
                    if k + 1 < h {
                        assert(kept[k + 1] < kept[h]);
                    }
                    assert(r < kept[h]);
                } else {
                    assert(r < n);
                    assert(kept[k + 1] <= n);
                }
            } else {
                assert(h <= k + 1);
                assert(h == kept.len());
            }
            if h == kept.len() {
                assert(eh == n);
                assert(r < n);
            }
        }
        assert(k >= h);
        assert(h < kept.len());
        assert(suffix_cmp(qry, t, mem[k] as int) == Cmp::Less);
    }
}

/// A subsample of a sorted suffix array is sorted and in bounds.
pub proof fn lemma_mem_sorted(t: Seq<u8>, sa: Seq<u64>, lcp: Seq<u64>, mem: Seq<u64>, q: u64)
    requires
        sa_in_bounds(sa, t.len()),
        sa_sorted(t, sa),
        lcp.len() == sa.len(),
        mem.len() == spec_kept(lcp, q).len(),
        forall|k: int|
            0 <= k < mem.len() ==> #[trigger] mem[k] == sa[spec_kept(lcp, q)[k]],
    ensures
        sa_in_bounds(mem, t.len()),
        sa_sorted(t, mem),
{
    let kept = spec_kept(lcp, q);
    lemma_kept_props(lcp, q);
    assert forall|k: int| 0 <= k < mem.len() implies #[trigger] mem[k] < t.len() by {
        assert(sa[kept[k]] < t.len());
    }
    assert forall|k1: int, k2: int| 0 <= k1 < k2 < mem.len() implies suffix_order(
        t,
        #[trigger] mem[k1] as int,
        #[trigger] mem[k2] as int,
    ) == Cmp::Less by {
        assert(kept[k1] < kept[k2]);
        assert(suffix_order(t, sa[kept[k1]] as int, sa[kept[k2]] as int) == Cmp::Less);
    }
}

/// Law: a sorted suffix array names at most as many suffixes as the text
/// has positions — its entries are distinct positions below the text
/// length.
pub proof fn lemma_sa_len_bounded(t: Seq<u8>, arr: Seq<u64>)
    requires
        sa_in_bounds(arr, t.len()),
        sa_sorted(t, arr),
    ensures
        arr.len() <= t.len(),
{
    lemma_sa_distinct(t, arr);
    let ints = arr.map_values(|v: u64| v as int);
    assert(ints.no_duplicates());
    ints.unique_seq_to_set();
    let range = vstd::set_lib::set_int_range(0, t.len() as int);
    assert(ints.to_set().subset_of(range)) by {
        assert forall|x: int| ints.to_set().contains(x) implies range.contains(x) by {
            let k = choose|k: int| 0 <= k < ints.len() && ints[k] == x;
            assert(arr[k] < t.len());
        }
    }
    vstd::set_lib::lemma_int_range(0, t.len() as int);
    vstd::set_lib::lemma_len_subset(ints.to_set(), range);
}

/// The suffix order is transitive.
pub proof fn lemma_order_trans(t: Seq<u8>, a: int, b: int, c: int, d: nat)
    requires
        0 <= a,
        0 <= b,
        0 <= c,
        d <= t.len(),
        suffix_order_from(t, a, b, d) == Cmp::Less,
        suffix_order_from(t, b, c, d) == Cmp::Less,
    ensures
        suffix_order_from(t, a, c, d) == Cmp::Less,
    decreases t.len() - d,
{
    if a + d < t.len() && b + d < t.len() && c + d < t.len() && t[a + d] == t[b + d] && t[b + d]
        == t[c + d] {
        lemma_order_trans(t, a, b, c, (d + 1) as nat);
    }
}

/// An array whose adjacent suffixes ascend is sorted throughout.
pub proof fn lemma_adjacent_sorted(t: Seq<u8>, arr: Seq<u64>)
    requires
        sa_in_bounds(arr, t.len()),
        forall|i: int|
            1 <= i < arr.len() ==> suffix_order(t, #[trigger] arr[i - 1] as int, arr[i] as int)
                == Cmp::Less,
    ensures
        sa_sorted(t, arr),
{
    assert forall|i: int, j: int| 0 <= i < j < arr.len() implies suffix_order(
        t,
        #[trigger] arr[i] as int,
        #[trigger] arr[j] as int,
    ) == Cmp::Less by {
        lemma_span_sorted(t, arr, i, j);
    }
}

proof fn lemma_span_sorted(t: Seq<u8>, arr: Seq<u64>, i: int, j: int)
    requires
        sa_in_bounds(arr, t.len()),
        forall|k: int|
            1 <= k < arr.len() ==> suffix_order(t, #[trigger] arr[k - 1] as int, arr[k] as int)
                == Cmp::Less,
        0 <= i < j < arr.len(),
    ensures
        suffix_order(t, arr[i] as int, arr[j] as int) == Cmp::Less,
    decreases j - i,
{
    if i + 1 == j {
        assert(suffix_order(t, arr[j - 1] as int, arr[j] as int) == Cmp::Less);
    } else {
        lemma_span_sorted(t, arr, i, j - 1);
        assert(suffix_order(t, arr[j - 1] as int, arr[j] as int) == Cmp::Less);
        lemma_order_trans(t, arr[i] as int, arr[j - 1] as int, arr[j] as int, 0);
    }
}

/// A query's matching rank range is unique: two correct ranges over the
/// same array are the same range.
pub proof fn lemma_range_unique(
    q: Seq<u8>,
    t: Seq<u8>,
    arr: Seq<u64>,
    lo1: int,
    hi1: int,
    lo2: int,
    hi2: int,
)
    requires
        range_correct(q, t, arr, lo1, hi1),
        range_correct(q, t, arr, lo2, hi2),
    ensures
        lo1 == lo2,
        hi1 == hi2,
{
    if lo1 < lo2 {
        assert(suffix_cmp(q, t, arr[lo1] as int) == Cmp::Greater);
        assert(suffix_cmp(q, t, arr[lo1] as int) != Cmp::Greater);
    }
    if lo2 < lo1 {
        assert(suffix_cmp(q, t, arr[lo2] as int) == Cmp::Greater);
        assert(suffix_cmp(q, t, arr[lo2] as int) != Cmp::Greater);
    }
    if hi1 < hi2 {
        assert(suffix_cmp(q, t, arr[hi1] as int) == Cmp::Less);
        assert(suffix_cmp(q, t, arr[hi1] as int) != Cmp::Less);
    }
    if hi2 < hi1 {
        assert(suffix_cmp(q, t, arr[hi2] as int) == Cmp::Less);
        assert(suffix_cmp(q, t, arr[hi2] as int) != Cmp::Less);
    }
}

/// A suffix compared against itself is neither above nor below itself.
pub proof fn lemma_order_self(t: Seq<u8>, a: int, d: nat)
    requires
        0 <= a,
        d <= t.len(),
    ensures
        suffix_order_from(t, a, a, d) == Cmp::Equal,
    decreases t.len() - d,
{
    if a + d < t.len() {
        lemma_order_self(t, a, (d + 1) as nat);
    }
}

/// Law: a sorted suffix array names each suffix at most once, so its
/// entries are pairwise distinct positions of the text.
pub proof fn lemma_sa_distinct(t: Seq<u8>, arr: Seq<u64>)
    requires
        sa_sorted(t, arr),
    ensures
        forall|i: int, j: int|
            0 <= i < j < arr.len() ==> #[trigger] arr[i] != #[trigger] arr[j],
{
    assert forall|i: int, j: int| 0 <= i < j < arr.len() implies #[trigger] arr[i]
        != #[trigger] arr[j] by {
        if arr[i] == arr[j] {
            lemma_order_self(t, arr[i] as int, 0);
            assert(suffix_order(t, arr[i] as int, arr[j] as int) == Cmp::Less);
        }
    }
}

/// Byte comparison of `query[skip..]` against `text[suffix_start + skip ..]`.
/// Returns the ordering and the number of further bytes that agreed.
pub fn compare(query: &[u8], text: &Vec<u8>, suffix_start: usize, skip: usize) -> (r: (Cmp, usize))
    requires
        skip <= query@.len(),
    ensures
        r.0 == suffix_cmp_from(query@, text@, suffix_start as int, skip as nat),
        skip + r.1 == match_depth_from(query@, text@, suffix_start as int, skip as nat),
        skip + r.1 <= query@.len(),
        r.1 > 0 ==> suffix_start + skip + r.1 <= text@.len(),
        forall|j: int|
            skip <= j < skip + r.1 ==> query@[j] == #[trigger] text@[suffix_start + j],
{
    let m: usize = query.len();
    let tlen: usize = text.len();
    let mut d: usize = skip;
    loop
        invariant
            skip <= d <= m,
            m == query@.len(),
            tlen == text@.len(),
            suffix_cmp_from(query@, text@, suffix_start as int, skip as nat) == suffix_cmp_from(
                query@,
                text@,
                suffix_start as int,
                d as nat,
            ),
            match_depth_from(query@, text@, suffix_start as int, skip as nat) == match_depth_from(
                query@,
                text@,
                suffix_start as int,
                d as nat,
            ),
            d > skip ==> suffix_start + d <= tlen,
            forall|j: int| skip <= j < d ==> query@[j] == #[trigger] text@[suffix_start + j],
        ensures
            skip <= d <= m,
            match_depth_from(query@, text@, suffix_start as int, skip as nat) == d,
            suffix_cmp_from(query@, text@, suffix_start as int, skip as nat) == suffix_cmp_from(
                query@,
                text@,
                suffix_start as int,
                d as nat,
            ),
            d == m || suffix_start + d >= tlen || (suffix_start + d < tlen && query@[d as int]
                != text@[suffix_start + d]),
            d > skip ==> suffix_start + d <= tlen,
            forall|j: int| skip <= j < d ==> query@[j] == #[trigger] text@[suffix_start + j],
        decreases m - d,
    {
        if d == m {
            break ;
        }
        if suffix_start >= tlen || d >= tlen - suffix_start {
            break ;
        }
        let qb: u8 = *vstd::slice::slice_index_get(query, d);
        let tb: u8 = text[suffix_start + d];
        if qb != tb {
            break ;
        }
        d = d + 1;
    }
    let extra: usize = d - skip;
    if d == m {
        (Cmp::Equal, extra)
    } else if suffix_start >= tlen || d >= tlen - suffix_start {
        (Cmp::Greater, extra)
    } else {
        let qb: u8 = *vstd::slice::slice_index_get(query, d);
        let tb: u8 = text[suffix_start + d];
        if qb < tb {
            (Cmp::Less, extra)
        } else {
            (Cmp::Greater, extra)
        }
    }
}

/// One entry of the searched array.
fn sa_source_at(sa_file: &FileAccess, sa_mem: &Vec<u64>, low_memory: bool, i: usize) -> (v: u64)
    requires
        sa_file.wf(),
        i < source_view(*sa_file, sa_mem@, low_memory).len(),
    ensures
        v == source_view(*sa_file, sa_mem@, low_memory)[i as int],
{
    if low_memory {
        sa_file.at(i)
    } else {
        sa_mem[i]
    }
}

/// Rank of the first suffix that is not below the query.
fn search_lower(
    query: &[u8],
    text: &Vec<u8>,
    sa_file: &FileAccess,
    sa_mem: &Vec<u64>,
    low_memory: bool,
) -> (lo: usize)
    requires
        sa_file.wf(),
        sa_in_bounds(source_view(*sa_file, sa_mem@, low_memory), text@.len()),
        sa_sorted(text@, source_view(*sa_file, sa_mem@, low_memory)),
        text@.len() <= usize::MAX,
    ensures
        ({
            let arr = source_view(*sa_file, sa_mem@, low_memory);
            &&& lo <= arr.len()
            &&& forall|r: int|
                0 <= r < lo ==> suffix_cmp(query@, text@, #[trigger] arr[r] as int) == Cmp::Greater
            &&& forall|r: int|
                lo <= r < arr.len() ==> suffix_cmp(query@, text@, #[trigger] arr[r] as int)
                    != Cmp::Greater
        }),
{
    let ghost arr = source_view(*sa_file, sa_mem@, low_memory);
    let qlen: usize = query.len();
    let n: usize = if low_memory {
        sa_file.count()
    } else {
        sa_mem.len()
    };
    let mut lo: usize = 0;
    let mut hi: usize = n;
    let mut lcp_lo: usize = 0;
    let mut lcp_hi: usize = 0;
    while lo < hi
        invariant
            lo <= hi <= n,
            n == arr.len(),
            qlen == query@.len(),
            arr == source_view(*sa_file, sa_mem@, low_memory),
            sa_file.wf(),
            sa_in_bounds(arr, text@.len()),
            sa_sorted(text@, arr),
            text@.len() <= usize::MAX,
            lcp_lo <= qlen,
            lcp_hi <= qlen,
            forall|r: int|
                0 <= r < lo ==> suffix_cmp(query@, text@, #[trigger] arr[r] as int) == Cmp::Greater,
            forall|r: int|
                hi <= r < n ==> suffix_cmp(query@, text@, #[trigger] arr[r] as int) != Cmp::Greater,
            lo > 0 ==> prefix_match(query@, text@, arr[lo - 1] as int, lcp_lo as nat),
            lo == 0 ==> lcp_lo == 0,
            hi < n ==> prefix_match(query@, text@, arr[hi as int] as int, lcp_hi as nat),
            hi == n ==> lcp_hi == 0,
        decreases hi - lo,
    {
        let mid: usize = lo + (hi - lo) / 2;
        assert(lo <= mid < hi);
        let skip: usize = if lcp_lo < lcp_hi {
            lcp_lo
        } else {
            lcp_hi
        };
        let s64: u64 = sa_source_at(sa_file, sa_mem, low_memory, mid);
        assert(s64 < text@.len());
        let s: usize = s64 as usize;
        proof {
            if skip > 0 {
                lemma_between_prefix(
                    query@,
                    text@,
                    arr[lo - 1] as int,
                    arr[mid as int] as int,
                    arr[hi as int] as int,
                    skip as nat,
                    0,
                );
            }
            assert(prefix_match(query@, text@, s as int, skip as nat));
        }
        let (c, extra) = compare(query, text, s, skip);
        proof {
            lemma_cmp_from_prefix(query@, text@, s as int, 0, skip as nat);
            assert(c == suffix_cmp(query@, text@, s as int));
            assert(prefix_match(query@, text@, s as int, (skip + extra) as nat));
        }
        match c {
            Cmp::Greater => {
                proof {
                    assert forall|r: int| 0 <= r < mid + 1 implies suffix_cmp(
                        query@,
                        text@,
                        #[trigger] arr[r] as int,
                    ) == Cmp::Greater by {
                        if lo <= r < mid {
                            lemma_cmp_transfer(
                                query@,
                                text@,
                                arr[r] as int,
                                arr[mid as int] as int,
                                0,
                            );
                        }
                    }
                }
                lo = mid + 1;
                lcp_lo = skip + extra;
            },
            _ => {
                proof {
                    assert forall|r: int| mid <= r < n implies suffix_cmp(
                        query@,
                        text@,
                        #[trigger] arr[r] as int,
                    ) != Cmp::Greater by {
                        if mid < r < hi {
                            lemma_cmp_transfer(
                                query@,
                                text@,
                                arr[mid as int] as int,
                                arr[r] as int,
                                0,
                            );
                        }
                    }
                }
                hi = mid;
                lcp_hi = skip + extra;
            },
        }
    }
    lo
}

/// Rank of the first suffix that lies above the query without matching it.
fn search_upper(
    query: &[u8],
    text: &Vec<u8>,
    sa_file: &FileAccess,
    sa_mem: &Vec<u64>,
    low_memory: bool,
) -> (hi: usize)
    requires
        sa_file.wf(),
        sa_in_bounds(source_view(*sa_file, sa_mem@, low_memory), text@.len()),
        sa_sorted(text@, source_view(*sa_file, sa_mem@, low_memory)),
        text@.len() <= usize::MAX,
    ensures
        ({
            let arr = source_view(*sa_file, sa_mem@, low_memory);
            &&& hi <= arr.len()
            &&& forall|r: int|
                0 <= r < hi ==> suffix_cmp(query@, text@, #[trigger] arr[r] as int) != Cmp::Less
            &&& forall|r: int|
                hi <= r < arr.len() ==> suffix_cmp(query@, text@, #[trigger] arr[r] as int)
                    == Cmp::Less
        }),
{
    let ghost arr = source_view(*sa_file, sa_mem@, low_memory);
    let qlen: usize = query.len();
    let n: usize = if low_memory {
        sa_file.count()
    } else {
        sa_mem.len()
    };
    let mut lo: usize = 0;
    let mut hi: usize = n;
    let mut lcp_lo: usize = 0;
    let mut lcp_hi: usize = 0;
    while lo < hi
        invariant
            lo <= hi <= n,
            n == arr.len(),
            qlen == query@.len(),
            arr == source_view(*sa_file, sa_mem@, low_memory),
            sa_file.wf(),
            sa_in_bounds(arr, text@.len()),
            sa_sorted(text@, arr),
            text@.len() <= usize::MAX,
            lcp_lo <= qlen,
            lcp_hi <= qlen,
            forall|r: int|
                0 <= r < lo ==> suffix_cmp(query@, text@, #[trigger] arr[r] as int) != Cmp::Less,
            forall|r: int|
                hi <= r < n ==> suffix_cmp(query@, text@, #[trigger] arr[r] as int) == Cmp::Less,
            lo > 0 ==> prefix_match(query@, text@, arr[lo - 1] as int, lcp_lo as nat),
            lo == 0 ==> lcp_lo == 0,
            hi < n ==> prefix_match(query@, text@, arr[hi as int] as int, lcp_hi as nat),
            hi == n ==> lcp_hi == 0,
        decreases hi - lo,
    {
        let mid: usize = lo + (hi - lo) / 2;
        assert(lo <= mid < hi);
        let skip: usize = if lcp_lo < lcp_hi {
            lcp_lo
        } else {
            lcp_hi
        };
        let s64: u64 = sa_source_at(sa_file, sa_mem, low_memory, mid);
        assert(s64 < text@.len());
        let s: usize = s64 as usize;
        proof {
            if skip > 0 {
                lemma_between_prefix(
                    query@,
                    text@,
                    arr[lo - 1] as int,
                    arr[mid as int] as int,
                    arr[hi as int] as int,
                    skip as nat,
                    0,
                );
            }
            assert(prefix_match(query@, text@, s as int, skip as nat));
        }
        let (c, extra) = compare(query, text, s, skip);
        proof {
            lemma_cmp_from_prefix(query@, text@, s as int, 0, skip as nat);
            assert(c == suffix_cmp(query@, text@, s as int));
            assert(prefix_match(query@, text@, s as int, (skip + extra) as nat));
        }
        match c {
            Cmp::Less => {
                proof {
                    assert forall|r: int| mid <= r < n implies suffix_cmp(
                        query@,
                        text@,
                        #[trigger] arr[r] as int,
                    ) == Cmp::Less by {
                        if mid < r < hi {
                            lemma_cmp_transfer(
                                query@,
                                text@,
                                arr[mid as int] as int,
                                arr[r] as int,
                                0,
                            );
                        }
                    }
                }
                hi = mid;
                lcp_hi = skip + extra;
            },
            _ => {
                proof {
                    assert forall|r: int| 0 <= r < mid + 1 implies suffix_cmp(
                        query@,
                        text@,
                        #[trigger] arr[r] as int,
                    ) != Cmp::Less by {
                        if lo <= r < mid {
                            lemma_cmp_transfer(
                                query@,
                                text@,
                                arr[r] as int,
                                arr[mid as int] as int,
                                0,
                            );
                        }
                    }
                }
                lo = mid + 1;
                lcp_lo = skip + extra;
            },
        }
    }
    hi
}

/// The half-open rank range of the suffixes the query matches, over the
/// stored suffix array or the resident one.
pub fn find_range(
    query: &[u8],
    text: &Vec<u8>,
    sa_file: &FileAccess,
    sa_mem: &Vec<u64>,
    low_memory: bool,
) -> (r: (usize, usize))
    requires
        sa_file.wf(),
        sa_in_bounds(source_view(*sa_file, sa_mem@, low_memory), text@.len()),
        sa_sorted(text@, source_view(*sa_file, sa_mem@, low_memory)),
        text@.len() <= usize::MAX,
    ensures
        range_correct(
            query@,
            text@,
            source_view(*sa_file, sa_mem@, low_memory),
            r.0 as int,
            r.1 as int,
        ),
{
    let ghost arr = source_view(*sa_file, sa_mem@, low_memory);
    let lo = search_lower(query, text, sa_file, sa_mem, low_memory);
    let hi = search_upper(query, text, sa_file, sa_mem, low_memory);
    proof {
        if hi < lo {
            assert(suffix_cmp(query@, text@, arr[hi as int] as int) == Cmp::Less);
            assert(suffix_cmp(query@, text@, arr[hi as int] as int) == Cmp::Greater);
        }
    }
    (lo, hi)
}

} // verus!
