use vstd::prelude::*;
use vstd::string::StrSliceExecFns;

verus! {

/// The longest common prefix of two character sequences.
pub open spec fn lcp_pair(a: Seq<char>, b: Seq<char>) -> Seq<char>
    decreases a.len(),
{
    if a.len() == 0 || b.len() == 0 || a[0] != b[0] {
        Seq::empty()
    } else {
        seq![a[0]] + lcp_pair(a.drop_first(), b.drop_first())
    }
}

/// The longest common prefix of the first `k` strings; empty when
/// there are none.
pub open spec fn lcp_of(strs: Seq<&str>, k: int) -> Seq<char>
    decreases k,
{
    if k <= 0 {
        Seq::empty()
    } else if k == 1 {
        strs[0]@
    } else {
        lcp_pair(lcp_of(strs, k - 1), strs[k - 1]@)
    }
}

/// When the first `j` characters agree and the next position does
/// not, or one side ends there, the pairwise prefix is exactly those
/// `j` characters.
proof fn lemma_lcp_pair_take(a: Seq<char>, b: Seq<char>, j: int)
    requires
        0 <= j <= a.len(),
        j <= b.len(),
        forall|i: int| 0 <= i < j ==> a[i] == b[i],
        j == a.len() || j == b.len() || a[j] != b[j],
    ensures
        lcp_pair(a, b) == a.take(j),
    decreases j,
{
    if j == 0 {
        assert(a.take(0) =~= Seq::<char>::empty());
        if a.len() > 0 && b.len() > 0 && a[0] == b[0] {
            assert(false);
        }
    } else {
        lemma_lcp_pair_take(a.drop_first(), b.drop_first(), j - 1);
        assert(seq![a[0]] + a.drop_first().take(j - 1) =~= a.take(j));
    }
}

/// The longest common prefix of the given strings, compared by
/// character; the empty string when none are given.
pub fn longest_common_prefix(strs: Vec<&str>) -> (r: String)
    ensures
        r@ == lcp_of(strs@, strs@.len() as int),
{
    if strs.len() == 0 {
        let empty = "";
        proof {
            reveal_strlit("");
            assert(empty@ =~= Seq::<char>::empty());
        }
        return empty.to_owned();
    }
    let mut prefix: &str = strs[0];
    let mut plen: usize = prefix.unicode_len();
    let mut i: usize = 1;
    while i < strs.len()
        invariant
            1 <= i <= strs@.len(),
            prefix@ == lcp_of(strs@, i as int),
            plen == prefix@.len(),
        decreases strs@.len() - i,
    {
        let s: &str = strs[i];
        let slen: usize = s.unicode_len();
        let mut j: usize = 0;
        while j < plen && j < slen
            invariant_except_break
                j <= plen,
                j <= slen,
                plen == prefix@.len(),
                slen == s@.len(),
                forall|t: int| 0 <= t < j ==> prefix@[t] == s@[t],
            ensures
                j <= plen,
                j <= slen,
                plen == prefix@.len(),
                slen == s@.len(),
                forall|t: int| 0 <= t < j ==> prefix@[t] == s@[t],
                j == plen || j == slen || prefix@[j as int] != s@[j as int],
            decreases plen - j,
        {
            if prefix.get_char(j) != s.get_char(j) {
                break;
            }
            j = j + 1;
        }
        proof {
            lemma_lcp_pair_take(prefix@, s@, j as int);
        }
        prefix = prefix.substring_char(0, j);
        proof {
            assert(prefix@ =~= lcp_of(strs@, i + 1));
        }
        plen = j;
        i = i + 1;
    }
    prefix.to_owned()
}

} // verus!
