//! Text utility: the most frequent character of a string.

use vstd::prelude::*;

verus! {

/// How many times `c` occurs in `s`.
pub open spec fn count_char(s: Seq<char>, c: char) -> nat
    decreases s.len(),
{
    if s.len() == 0 {
        0
    } else {
        count_char(s.drop_last(), c) + if s.last() == c {
            1nat
        } else {
            0nat
        }
    }
}

/// Relies on char's implementation of ToString (through Display): formatting
/// a char yields a string holding exactly that character.
#[verifier::external_body]
fn char_to_string(c: char) -> (r: String)
    ensures
        r@ == seq![c],
{
    c.to_string()
}

/// Counts how often `c` occurs among the characters of `s`.
fn count_occurrences(s: &str, c: char) -> (cnt: usize)
    ensures
        cnt == count_char(s@, c),
{
    let n = s.unicode_len();
    let mut cnt: usize = 0;
    let mut i: usize = 0;
    proof {
        assert(s@.take(0) =~= Seq::<char>::empty());
    }
    while i < n
        invariant
            0 <= i <= n,
            n == s@.len(),
            cnt <= i,
            cnt == count_char(s@.take(i as int), c),
        decreases n - i,
    {
        proof {
            assert(s@.take(i as int + 1).drop_last() =~= s@.take(i as int));
            assert(s@.take(i as int + 1).last() == s@[i as int]);
        }
        if s.get_char(i) == c {
            cnt += 1;
        }
        i += 1;
    }
    proof {
        assert(s@.take(n as int) =~= s@);
    }
    cnt
}

/// Returns a one-character String containing a most frequent character of
/// `s`: one that occurs in `s` at least as often as every other character
/// does. Returns the empty String when `s` is empty.
pub fn freq(s: &str) -> (r: String)
    ensures
        s@.len() == 0 ==> r@ == Seq::<char>::empty(),
        s@.len() > 0 ==> {
            &&& r@.len() == 1
            &&& s@.contains(r@[0])
            &&& forall|c: char| s@.contains(c) ==> count_char(s@, c) <= count_char(s@, r@[0])
        },
{
    let n = s.unicode_len();
    if n == 0 {
        return String::new();
    }
    let mut best: char = s.get_char(0);
    let mut best_count: usize = count_occurrences(s, best);
    proof {
        assert(s@.contains(s@[0]));
    }
    let mut i: usize = 1;
    while i < n
        invariant
            1 <= i <= n,
            n == s@.len(),
            s@.contains(best),
            best_count == count_char(s@, best),
            forall|k: int| 0 <= k < i ==> count_char(s@, #[trigger] s@[k]) <= best_count,
        decreases n - i,
    {
        let c = s.get_char(i);
        let cnt = count_occurrences(s, c);
        if cnt > best_count {
            best = c;
            best_count = cnt;
            proof {
                assert(s@.contains(s@[i as int]));
            }
        }
        i += 1;
    }
    proof {
        assert forall|c: char| s@.contains(c) implies count_char(s@, c) <= count_char(
            s@,
            best,
        ) by {
            let k = choose|k: int| 0 <= k < s@.len() && s@[k] == c;
            assert(count_char(s@, s@[k]) <= best_count);
        }
    }
    char_to_string(best)
}

} // verus!
