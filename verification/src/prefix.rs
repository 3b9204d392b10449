use vstd::prelude::*;
use vstd::std_specs::iter::IteratorSpec;
use vstd::string::StringSliceAdditionalSpecFns;
use vstd::utf8::encode_utf8;

verus! {

/// Number of leading characters on which `a` and `b` agree.
pub open spec fn common_prefix_len(a: Seq<char>, b: Seq<char>) -> nat
    decreases a.len(),
{
    if a.len() > 0 && b.len() > 0 && a[0] == b[0] {
        1 + common_prefix_len(a.drop_first(), b.drop_first())
    } else {
        0
    }
}

/// The common prefix length is the one position up to which both sequences
/// agree and at which they part: it fits in both, the first
/// `common_prefix_len(a, b)` characters are the same, and where both go on,
/// the next character differs.
pub proof fn lemma_common_prefix_len_parts(a: Seq<char>, b: Seq<char>)
    ensures
        common_prefix_len(a, b) <= a.len(),
        common_prefix_len(a, b) <= b.len(),
        a.take(common_prefix_len(a, b) as int) == b.take(common_prefix_len(a, b) as int),
        common_prefix_len(a, b) < a.len() && common_prefix_len(a, b) < b.len() ==> a[common_prefix_len(
            a,
            b,
        ) as int] != b[common_prefix_len(a, b) as int],
    decreases a.len(),
{
    if a.len() > 0 && b.len() > 0 && a[0] == b[0] {
        let a1 = a.drop_first();
        let b1 = b.drop_first();
        lemma_common_prefix_len_parts(a1, b1);
        let p = common_prefix_len(a1, b1) as int;
        let a_head = a.take(p + 1);
        let b_head = b.take(p + 1);
        assert(a_head =~= b_head) by {
            assert forall|i: int| 0 <= i < p + 1 implies #[trigger] a_head[i] == b_head[i] by {
                if i > 0 {
                    assert(a1.take(p)[i - 1] == b1.take(p)[i - 1]);
                }
            }
        }
        if p < a1.len() && p < b1.len() {
            assert(a[p + 1] == a1[p]);
            assert(b[p + 1] == b1[p]);
        }
    } else {
        assert(a.take(0) =~= b.take(0));
    }
}

/// Any position that splits two sequences the way the common prefix length
/// does is the common prefix length.
pub proof fn lemma_common_prefix_len_unique(a: Seq<char>, b: Seq<char>, n: int)
    requires
        0 <= n <= a.len(),
        n <= b.len(),
        a.take(n) == b.take(n),
        n < a.len() && n < b.len() ==> a[n] != b[n],
    ensures
        common_prefix_len(a, b) == n,
{
    let p = common_prefix_len(a, b) as int;
    lemma_common_prefix_len_parts(a, b);
    if p < n {
        assert(a[p] == a.take(n)[p]);
        assert(b[p] == b.take(n)[p]);
    } else if n < p {
        assert(a[n] == a.take(p)[n]);
        assert(b[n] == b.take(p)[n]);
    }
}

/// The common prefix length does not depend on the order of its arguments.
pub proof fn lemma_common_prefix_len_symmetric(a: Seq<char>, b: Seq<char>)
    ensures
        common_prefix_len(a, b) == common_prefix_len(b, a),
{
    lemma_common_prefix_len_parts(a, b);
    lemma_common_prefix_len_unique(b, a, common_prefix_len(a, b) as int);
}

/// A sequence shares all of its characters with itself.
pub proof fn lemma_common_prefix_len_same(a: Seq<char>)
    ensures
        common_prefix_len(a, a) == a.len(),
{
    assert(a.take(a.len() as int) == a.take(a.len() as int));
    lemma_common_prefix_len_unique(a, a, a.len() as int);
}

/// Two sequences share no prefix exactly when one of them is empty or their
/// first characters differ.
pub proof fn lemma_common_prefix_len_zero(a: Seq<char>, b: Seq<char>)
    ensures
        common_prefix_len(a, b) == 0 <==> (a.len() == 0 || b.len() == 0 || a[0] != b[0]),
{
}

/// `a` is a prefix of `b` exactly when the two share all of `a`.
pub proof fn lemma_prefix_iff_shares_all(a: Seq<char>, b: Seq<char>)
    ensures
        a.is_prefix_of(b) <==> common_prefix_len(a, b) == a.len(),
{
    lemma_common_prefix_len_parts(a, b);
    if a.is_prefix_of(b) {
        assert(a.take(a.len() as int) =~= b.take(a.len() as int));
        lemma_common_prefix_len_unique(a, b, a.len() as int);
    }
    if common_prefix_len(a, b) == a.len() {
        assert(a.take(a.len() as int) =~= a);
    }
}

/// Two sequences that begin with the same `n` characters and go on in the
/// same way are the same.
pub proof fn lemma_same_head_same_tail(a: Seq<char>, b: Seq<char>, n: int)
    requires
        0 <= n <= a.len(),
        n <= b.len(),
        a.take(n) == b.take(n),
        a.skip(n) == b.skip(n),
    ensures
        a == b,
{
    assert(a =~= a.take(n) + a.skip(n));
    assert(b =~= b.take(n) + b.skip(n));
}

/// A string never has more characters than its UTF-8 encoding has bytes.
pub proof fn lemma_chars_fit_in_bytes(chars: Seq<char>)
    ensures
        chars.len() <= encode_utf8(chars).len(),
    decreases chars.len(),
{
    if chars.len() > 0 {
        lemma_chars_fit_in_bytes(chars.drop_first());
    }
}

/// Counts the leading characters that two strings share, character by
/// character.
pub fn longest_common_prefix(s1: &str, s2: &str) -> (n: usize)
    ensures
        n == common_prefix_len(s1@, s2@),
{
    let mut iter1 = s1.chars();
    let mut iter2 = s2.chars();
    let bound = s1.as_bytes().len();
    proof {
        lemma_chars_fit_in_bytes(s1@);
    }
    let mut i: usize = 0;
    loop
        invariant
            s1@.len() <= bound,
            iter1.obeys_prophetic_iter_laws(),
            iter2.obeys_prophetic_iter_laws(),
            i <= s1@.len(),
            i <= s2@.len(),
            iter1.remaining() == s1@.skip(i as int),
            iter2.remaining() == s2@.skip(i as int),
            common_prefix_len(s1@, s2@) == i + common_prefix_len(
                s1@.skip(i as int),
                s2@.skip(i as int),
            ),
        decreases s1@.len() - i,
    {
        match (iter1.next(), iter2.next()) {
            (Some(ch1), Some(ch2)) => {
                if ch1 != ch2 {
                    return i;
                }
                proof {
                    assert(s1@.skip(i as int).drop_first() =~= s1@.skip(i + 1));
                    assert(s2@.skip(i as int).drop_first() =~= s2@.skip(i + 1));
                }
                i = i + 1;
            },
            _ => {
                return i;
            },
        }
    }
}

} // verus!
