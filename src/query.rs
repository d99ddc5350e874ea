use vstd::prelude::*;

use crate::record::ClipboardRecord;
use crate::retention::older;

verus! {

/// An ASCII byte in lower case; other bytes are left alone.
pub open spec fn fold_ascii(b: u8) -> u8 {
    if 65 <= b <= 90 {
        (b + 32) as u8
    } else {
        b
    }
}

/// `needle` occurs in `hay` at offset `p`, ignoring ASCII case.
pub open spec fn occurs_at(hay: Seq<u8>, needle: Seq<u8>, p: int) -> bool {
    &&& 0 <= p
    &&& p + needle.len() <= hay.len()
    &&& forall|k: int| 0 <= k < needle.len() ==> fold_ascii(#[trigger] hay[p + k]) == fold_ascii(needle[k])
}

/// `needle` occurs somewhere in `hay`, ignoring ASCII case.
pub open spec fn contains_folded(hay: Seq<u8>, needle: Seq<u8>) -> bool {
    exists|p: int| occurs_at(hay, needle, p)
}

/// The record's value contains the keyword, ignoring ASCII case, as UTF-8 text.
pub open spec fn matches_keyword(r: ClipboardRecord, keyword: Seq<char>) -> bool {
    contains_folded(vstd::utf8::encode_utf8(r.record_value@), vstd::utf8::encode_utf8(keyword))
}

/// `a` is listed before `b`: pinned rows first, then the most recently
/// updated (the larger id first on equal times).
pub open spec fn ranks_before(a: ClipboardRecord, b: ClipboardRecord) -> bool {
    (a.pinned && !b.pinned) || (a.pinned == b.pinned && older(b, a))
}

/// Every row is listed before each row after it.
pub open spec fn sorted_for_display(s: Seq<ClipboardRecord>) -> bool {
    forall|i: int, j: int| 0 <= i < j < s.len() ==> ranks_before(#[trigger] s[i], #[trigger] s[j])
}

fn fold_byte(b: u8) -> (r: u8)
    ensures
        r == fold_ascii(b),
{
    if 65 <= b && b <= 90 {
        b + 32
    } else {
        b
    }
}

/// Tests whether `needle` occurs in `hay`, ignoring ASCII case.
pub fn contains_ignore_case(hay: &[u8], needle: &[u8]) -> (r: bool)
    ensures
        r == contains_folded(hay@, needle@),
{
    if needle.len() > hay.len() {
        return false;
    }
    let n = hay.len();
    let last = n - needle.len();
    let mut p: usize = 0;
    while p <= last
        invariant
            n == hay@.len(),
            last == hay@.len() - needle@.len(),
            needle@.len() <= hay@.len(),
            p <= last + 1,
            forall|q: int| 0 <= q < p ==> !occurs_at(hay@, needle@, q),
        decreases last + 1 - p,
    {
        let mut k: usize = 0;
        let mut ok = true;
        while ok && k < needle.len()
            invariant
                n == hay@.len(),
                last == hay@.len() - needle@.len(),
                needle@.len() <= hay@.len(),
                p <= last,
                k <= needle@.len(),
                ok ==> forall|m: int| 0 <= m < k ==> fold_ascii(#[trigger] hay@[p + m]) == fold_ascii(needle@[m]),
                !ok ==> !occurs_at(hay@, needle@, p as int),
            decreases needle.len() - k + (if ok { 1int } else { 0int }),
        {
            if fold_byte(hay[p + k]) != fold_byte(needle[k]) {
                ok = false;
            } else {
                k += 1;
            }
        }
        if ok {
            assert(occurs_at(hay@, needle@, p as int));
            return true;
        }
        if p == last {
            return false;
        }
        p += 1;
    }
    false
}

/// Tells whether `a` is listed before `b`.
fn ranks_before_exec(a: &ClipboardRecord, b: &ClipboardRecord) -> (r: bool)
    ensures
        r == ranks_before(*a, *b),
{
    (a.pinned && !b.pinned) || (a.pinned == b.pinned && (b.updated_at < a.updated_at || (b.updated_at
        == a.updated_at && b.id < a.id)))
}

/// Inserts `x` into a sorted list at its place.
pub fn insert_sorted(out: &mut Vec<ClipboardRecord>, x: ClipboardRecord)
    requires
        sorted_for_display(old(out)@),
        forall|k: int| 0 <= k < old(out)@.len() ==> (#[trigger] old(out)@[k]).id != x.id,
    ensures
        sorted_for_display(final(out)@),
        final(out)@.len() == old(out)@.len() + 1,
        forall|z: ClipboardRecord| #[trigger] final(out)@.contains(z) <==> (old(out)@.contains(z) || z == x),
{
    let ghost pre = out@;
    let mut p: usize = 0;
    while p < out.len() && !ranks_before_exec(&x, &out[p])
        invariant
            out@ == pre,
            p <= out@.len(),
            forall|k: int| 0 <= k < p ==> !ranks_before(x, #[trigger] pre[k]),
        decreases out.len() - p,
    {
        p += 1;
    }
    out.insert(p, x);
    proof {
        let post = out@;
        assert(post == pre.insert(p as int, x));
        assert forall|k: int| 0 <= k < p implies post[k] == pre[k] by {}
        assert forall|k: int| p < k < post.len() implies post[k] == pre[k - 1] by {}
        assert forall|i: int, j: int| 0 <= i < j < post.len() implies ranks_before(#[trigger] post[i], #[trigger] post[j]) by {
            if j < p {
                assert(ranks_before(pre[i], pre[j]));
            } else if j == p {
                assert(!ranks_before(x, pre[i]));
                assert(pre[i].id != x.id);
            } else if i < p {
                assert(ranks_before(pre[i], pre[j - 1]));
            } else if i == p {
                assert(ranks_before(x, pre[p as int]));
                if j - 1 > p {
                    assert(ranks_before(pre[p as int], pre[j - 1]));
                }
            } else {
                assert(ranks_before(pre[i - 1], pre[j - 1]));
            }
        }
        assert forall|z: ClipboardRecord| #[trigger] post.contains(z) <==> (pre.contains(z) || z == x) by {
            if post.contains(z) {
                let k = choose|k: int| 0 <= k < post.len() && post[k] == z;
                if k < p {
                    assert(pre[k] == z);
                } else if k > p {
                    assert(pre[k - 1] == z);
                }
            }
            if pre.contains(z) {
                let k = choose|k: int| 0 <= k < pre.len() && pre[k] == z;
                if k < p {
                    assert(post[k] == z);
                } else {
                    assert(post[k + 1] == z);
                }
            }
            if z == x {
                assert(post[p as int] == x);
            }
        }
    }
}

/// The empty keyword matches every record.
pub proof fn lemma_empty_keyword_matches(r: ClipboardRecord)
    ensures
        matches_keyword(r, Seq::<char>::empty()),
{
    assert(vstd::utf8::encode_utf8(Seq::<char>::empty()) =~= Seq::<u8>::empty());
    assert(occurs_at(vstd::utf8::encode_utf8(r.record_value@), Seq::<u8>::empty(), 0));
}

/// What a query returns: every row for the empty keyword, and nothing when
/// no row's value contains the keyword.
pub proof fn lemma_query_results(rows: Seq<ClipboardRecord>, r: Seq<ClipboardRecord>, keyword: Seq<char>)
    requires
        forall|x: ClipboardRecord| #[trigger] r.contains(x) <==> (rows.contains(x) && matches_keyword(x, keyword)),
    ensures
        keyword.len() == 0 ==> forall|x: ClipboardRecord| #[trigger] r.contains(x) <==> rows.contains(x),
        (forall|x: ClipboardRecord| #[trigger] rows.contains(x) ==> !matches_keyword(x, keyword)) ==> r.len() == 0,
{
    if keyword.len() == 0 {
        assert(keyword =~= Seq::<char>::empty());
        assert forall|x: ClipboardRecord| #[trigger] r.contains(x) <==> rows.contains(x) by {
            lemma_empty_keyword_matches(x);
        }
    }
    if forall|x: ClipboardRecord| #[trigger] rows.contains(x) ==> !matches_keyword(x, keyword) {
        if r.len() > 0 {
            assert(r.contains(r[0]));
        }
    }
}

/// Matching ignores case: keywords whose bytes agree up to ASCII case match
/// the same records.
pub proof fn lemma_match_ignores_case(x: ClipboardRecord, k1: Seq<char>, k2: Seq<char>)
    requires
        vstd::utf8::encode_utf8(k1).len() == vstd::utf8::encode_utf8(k2).len(),
        forall|i: int|
            0 <= i < vstd::utf8::encode_utf8(k1).len() ==> fold_ascii(#[trigger] vstd::utf8::encode_utf8(k1)[i])
                == fold_ascii(vstd::utf8::encode_utf8(k2)[i]),
    ensures
        matches_keyword(x, k1) == matches_keyword(x, k2),
{
    let hay = vstd::utf8::encode_utf8(x.record_value@);
    let n1 = vstd::utf8::encode_utf8(k1);
    let n2 = vstd::utf8::encode_utf8(k2);
    assert forall|p: int| occurs_at(hay, n1, p) <==> occurs_at(hay, n2, p) by {
        if occurs_at(hay, n1, p) {
            assert forall|k: int| 0 <= k < n2.len() implies fold_ascii(#[trigger] hay[p + k]) == fold_ascii(n2[k]) by {
                assert(fold_ascii(n1[k]) == fold_ascii(n2[k]));
            }
        }
        if occurs_at(hay, n2, p) {
            assert forall|k: int| 0 <= k < n1.len() implies fold_ascii(#[trigger] hay[p + k]) == fold_ascii(n1[k]) by {
                assert(fold_ascii(n1[k]) == fold_ascii(n2[k]));
            }
        }
    }
    if matches_keyword(x, k1) {
        let p = choose|p: int| occurs_at(hay, n1, p);
        assert(occurs_at(hay, n2, p));
    }
    if matches_keyword(x, k2) {
        let p = choose|p: int| occurs_at(hay, n2, p);
        assert(occurs_at(hay, n1, p));
    }
}

} // verus!
