//! Stateless numeric utilities: the Fibonacci sequence, decimal palindromes,
//! and selection of the n-th largest element of a slice.

use vstd::prelude::*;

verus! {

/// The Fibonacci number at position `i` (0, 1, 1, 2, 3, ...).
pub open spec fn fib_spec(i: nat) -> nat
    decreases i,
{
    if i == 0 {
        0
    } else if i == 1 {
        1
    } else {
        fib_spec((i - 2) as nat) + fib_spec((i - 1) as nat)
    }
}

proof fn lemma_fib_mono(i: nat, j: nat)
    requires
        i <= j,
    ensures
        fib_spec(i) <= fib_spec(j),
    decreases j,
{
    if i < j && j >= 2 {
        lemma_fib_mono(i, (j - 1) as nat);
    }
}

proof fn lemma_fib_fits_u32(i: nat)
    requires
        i <= 47,
    ensures
        fib_spec(i) <= 2971215073,
{
    lemma_fib_mono(i, 47);
    assert(fib_spec(0) == 0);
    assert(fib_spec(1) == 1);
    assert(fib_spec(2) == 1);
    assert(fib_spec(3) == 2);
    assert(fib_spec(4) == 3);
    assert(fib_spec(5) == 5);
    assert(fib_spec(6) == 8);
    assert(fib_spec(7) == 13);
    assert(fib_spec(8) == 21);
    assert(fib_spec(9) == 34);
    assert(fib_spec(10) == 55);
    assert(fib_spec(11) == 89);
    assert(fib_spec(12) == 144);
    assert(fib_spec(13) == 233);
    assert(fib_spec(14) == 377);
    assert(fib_spec(15) == 610);
    assert(fib_spec(16) == 987);
    assert(fib_spec(17) == 1597);
    assert(fib_spec(18) == 2584);
    assert(fib_spec(19) == 4181);
    assert(fib_spec(20) == 6765);
    assert(fib_spec(21) == 10946);
    assert(fib_spec(22) == 17711);
    assert(fib_spec(23) == 28657);
    assert(fib_spec(24) == 46368);
    assert(fib_spec(25) == 75025);
    assert(fib_spec(26) == 121393);
    assert(fib_spec(27) == 196418);
    assert(fib_spec(28) == 317811);
    assert(fib_spec(29) == 514229);
    assert(fib_spec(30) == 832040);
    assert(fib_spec(31) == 1346269);
    assert(fib_spec(32) == 2178309);
    assert(fib_spec(33) == 3524578);
    assert(fib_spec(34) == 5702887);
    assert(fib_spec(35) == 9227465);
    assert(fib_spec(36) == 14930352);
    assert(fib_spec(37) == 24157817);
    assert(fib_spec(38) == 39088169);
    assert(fib_spec(39) == 63245986);
    assert(fib_spec(40) == 102334155);
    assert(fib_spec(41) == 165580141);
    assert(fib_spec(42) == 267914296);
    assert(fib_spec(43) == 433494437);
    assert(fib_spec(44) == 701408733);
    assert(fib_spec(45) == 1134903170);
    assert(fib_spec(46) == 1836311903);
    assert(fib_spec(47) == 2971215073);
}

/// Returns the first `n` Fibonacci numbers.
///
/// The 49th number no longer fits in a `u32`, hence the bound on `n`.
pub fn fib(n: u32) -> (r: Vec<u32>)
    requires
        n <= 48,
    ensures
        r@.len() == n,
        forall|i: int| 0 <= i < n ==> r@[i] == fib_spec(i as nat),
{
    let mut x: Vec<u32> = Vec::new();
    if n == 0 {
        return x;
    }
    x.push(0);
    if n == 1 {
        return x;
    }
    x.push(1);
    let mut k: u32 = 2;
    while k < n
        invariant
            2 <= k <= n <= 48,
            x@.len() == k,
            forall|i: int| 0 <= i < k ==> x@[i] == fib_spec(i as nat),
        decreases n - k,
    {
        let len = x.len();
        proof {
            lemma_fib_fits_u32(k as nat);
            assert(x@[len - 1] + x@[len - 2] == fib_spec(k as nat));
        }
        let next = x[len - 1] + x[len - 2];
        x.push(next);
        k += 1;
    }
    x
}

/// The decimal digits of `n`, most significant first (a single `0` for 0).
pub open spec fn digits_spec(n: nat) -> Seq<int>
    decreases n,
{
    if n < 10 {
        seq![n as int]
    } else {
        digits_spec(n / 10).push((n % 10) as int)
    }
}

/// A sequence that reads the same forwards and backwards.
pub open spec fn seq_is_palindrome(s: Seq<int>) -> bool {
    forall|i: int| 0 <= i < s.len() ==> (#[trigger] s[i]) == s[s.len() - 1 - i]
}

/// Returns true if the decimal writing of `n` is a palindrome.
pub fn is_palindrome(n: u32) -> (r: bool)
    ensures
        r == seq_is_palindrome(digits_spec(n as nat)),
{
    let ghost d = digits_spec(n as nat);
    // Collect the digits of `n`, least significant first, so that
    // `dv` holds the digits of `n` in reverse order.
    let mut dv: Vec<u32> = Vec::new();
    let mut m: u32 = n;
    proof {
        assert(d.take(d.len() as int) =~= d);
    }
    while m >= 10
        invariant
            dv@.len() < d.len(),
            digits_spec(m as nat) == d.take(d.len() - dv@.len()),
            forall|i: int| 0 <= i < dv@.len() ==> dv@[i] as int == d[d.len() - 1 - i],
        decreases m,
    {
        let ghost k = d.len() - dv@.len();
        proof {
            assert(digits_spec(m as nat) == digits_spec((m / 10) as nat).push((m % 10) as int));
            assert(d.take(k as int).drop_last() =~= d.take(k - 1));
            assert(digits_spec((m / 10) as nat) == d.take(k - 1));
            assert(d.take(k as int).last() == d[k - 1]);
        }
        dv.push(m % 10);
        m = m / 10;
    }
    proof {
        let k = d.len() - dv@.len();
        assert(digits_spec(m as nat) == seq![m as int]);
        assert(d.take(k as int).len() == 1);
        assert(d.take(k as int)[0] == d[0]);
        assert(m as int == d[0]);
    }
    dv.push(m);
    let len = dv.len();
    proof {
        assert(dv@.len() == d.len());
    }
    let mut i: usize = 0;
    while i < len
        invariant
            d == digits_spec(n as nat),
            0 <= i <= len,
            len == dv@.len() == d.len(),
            forall|j: int| 0 <= j < dv@.len() ==> dv@[j] as int == d[d.len() - 1 - j],
            forall|j: int| 0 <= j < i ==> (#[trigger] d[j]) == d[d.len() - 1 - j],
        decreases len - i,
    {
        if dv[i] != dv[len - 1 - i] {
            proof {
                assert(dv@[i as int] as int == d[d.len() - 1 - i]);
                assert(dv@[len - 1 - i] as int == d[i as int]);
                assert(d[i as int] != d[d.len() - 1 - i]);
                assert(!seq_is_palindrome(d));
            }
            return false;
        }
        proof {
            assert(dv@[i as int] as int == d[d.len() - 1 - i]);
            assert(dv@[len - 1 - i] as int == d[i as int]);
        }
        i += 1;
    }
    true
}

/// Sorted in weakly decreasing order.
pub open spec fn sorted_desc(s: Seq<i32>) -> bool {
    forall|i: int, j: int| 0 <= i <= j < s.len() ==> s[i] >= s[j]
}

/// Sorts `v` in weakly decreasing order by insertion.
fn sort_desc(v: &mut Vec<i32>)
    ensures
        sorted_desc(final(v)@),
        final(v)@.to_multiset() == old(v)@.to_multiset(),
        final(v)@.len() == old(v)@.len(),
{
    let n = v.len();
    let mut i: usize = 0;
    while i < n
        invariant
            0 <= i <= n,
            v@.len() == n == old(v)@.len(),
            v@.to_multiset() == old(v)@.to_multiset(),
            sorted_desc(v@.take(i as int)),
        decreases n - i,
    {
        let mut j: usize = i;
        proof {
            assert forall|a: int, b: int|
                0 <= a < b <= i && b != i implies v@[a] >= v@[b] by {
                assert(v@.take(i as int)[a] == v@[a]);
                assert(v@.take(i as int)[b] == v@[b]);
            }
        }
        while j > 0 && v[j - 1] < v[j]
            invariant
                0 <= j <= i < n,
                v@.len() == n == old(v)@.len(),
                v@.to_multiset() == old(v)@.to_multiset(),
                forall|a: int, b: int|
                    0 <= a < b <= i && b != j ==> v@[a] >= v@[b],
            decreases j,
        {
            let ghost s = v@;
            let x = v[j - 1];
            let y = v[j];
            v[j - 1] = y;
            v[j] = x;
            proof {
                assert(v@ =~= s.update(j - 1, s[j as int]).update(j as int, s[j - 1]));
                crate::seqs::lemma_swap_preserves_multiset(s, j - 1, j as int);
            }
            j -= 1;
        }
        proof {
            assert forall|a: int, b: int| 0 <= a < b <= i implies v@[a] >= v@[b] by {
                if b == j {
                    if a < j - 1 {
                        assert(v@[a] >= v@[j - 1]);
                    }
                }
            }
            assert forall|a: int, b: int|
                0 <= a <= b < i + 1 implies (#[trigger] v@.take(i + 1)[a]) >= (#[trigger] v@.take(
                i + 1,
            )[b]) by {
                assert(v@.take(i + 1)[a] == v@[a]);
                assert(v@.take(i + 1)[b] == v@[b]);
            }
            assert(sorted_desc(v@.take(i + 1)));
        }
        i += 1;
    }
    proof {
        assert(v@.take(n as int) =~= v@);
    }
}

/// Returns the n-th largest element of `a` (counting duplicates, starting at
/// 0), or None when `a` has no position `n`.
pub fn nthmax(n: usize, a: &[i32]) -> (r: Option<i32>)
    ensures
        r is None <==> n >= a@.len(),
        r matches Some(v) ==> exists|s: Seq<i32>|
            {
                &&& #[trigger] s.to_multiset() == a@.to_multiset()
                &&& sorted_desc(s)
                &&& s.len() == a@.len()
                &&& v == s[n as int]
            },
{
    if n >= a.len() {
        return None;
    }
    let mut sorted = vstd::slice::slice_to_vec(a);
    sort_desc(&mut sorted);
    let v = sorted[n];
    proof {
        assert(sorted@.to_multiset() == a@.to_multiset());
        assert(sorted_desc(sorted@));
        assert(v == sorted@[n as int]);
    }
    Some(v)
}

} // verus!
