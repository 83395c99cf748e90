//! Character-level tokenizer: the vocabulary is the sorted set of characters
//! seen in the documents, a character's token is its position there, and the
//! token just past the vocabulary marks the beginning and end of a document.
use vstd::prelude::*;

verus! {

/// The sequence is strictly increasing: sorted, with nothing twice.
pub open spec fn strictly_sorted(s: Seq<char>) -> bool {
    forall|i: int, j: int| 0 <= i < j < s.len() ==> #[trigger] s[i] < #[trigger] s[j]
}

/// `c` occurs in one of the documents.
pub open spec fn occurs_in(docs: Seq<Seq<char>>, c: char) -> bool {
    exists|d: int| 0 <= d < docs.len() && #[trigger] docs[d].contains(c)
}

/// `i` is the first position of `c` in `s`.
pub open spec fn first_position(s: Seq<char>, c: char, i: int) -> bool {
    &&& 0 <= i < s.len()
    &&& s[i] == c
    &&& forall|j: int| 0 <= j < i ==> s[j] != c
}

/// The sorted list of the distinct characters of the documents.
pub fn build_vocab(docs: &Vec<Vec<char>>) -> (r: Vec<char>)
    ensures
        strictly_sorted(r@),
        forall|c: char| #[trigger] r@.contains(c) <==> occurs_in(docs.deep_view(), c),
{
    let ghost dv = docs.deep_view();
    let mut out: Vec<char> = Vec::new();
    let nd = docs.len();
    let mut d: usize = 0;
    while d < nd
        invariant
            nd == docs@.len(),
            dv == docs.deep_view(),
            d <= nd,
            strictly_sorted(out@),
            forall|c: char| #[trigger] out@.contains(c) <==> occurs_in(dv.take(d as int), c),
        decreases nd - d,
    {
        let doc = &docs[d];
        assert(doc@ == dv[d as int]);
        let nc = doc.len();
        let mut i: usize = 0;
        while i < nc
            invariant
                nc == doc@.len(),
                doc@ == dv[d as int],
                d < nd,
                nd == dv.len(),
                i <= nc,
                strictly_sorted(out@),
                forall|c: char| #[trigger]
                    out@.contains(c) <==> (occurs_in(dv.take(d as int), c) || doc@.take(
                        i as int,
                    ).contains(c)),
            decreases nc - i,
        {
            let c = doc[i];
            insert_sorted(&mut out, c);
            proof {
                let ghost pre = doc@.take(i as int);
                assert(doc@.take(i + 1) =~= pre.push(c));
                assert forall|x: char| #[trigger] pre.push(c).contains(x) <==> (pre.contains(x) || x == c) by {
                    if pre.push(c).contains(x) {
                        let k = choose|k: int| 0 <= k < pre.len() + 1 && pre.push(c)[k] == x;
                        if k < pre.len() {
                            assert(pre[k] == x);
                        }
                    }
                    if pre.contains(x) {
                        let k = choose|k: int| 0 <= k < pre.len() && pre[k] == x;
                        assert(pre.push(c)[k] == x);
                    }
                    if x == c {
                        assert(pre.push(c)[pre.len() as int] == x);
                    }
                }
            }
            i = i + 1;
        }
        proof {
            assert(doc@.take(nc as int) =~= doc@);
            assert forall|c: char| #[trigger]
                out@.contains(c) <==> occurs_in(dv.take(d + 1), c) by {
                if doc@.contains(c) {
                    assert(dv.take(d + 1)[d as int] == doc@);
                }
                if occurs_in(dv.take(d + 1), c) {
                    let e = choose|e: int| 0 <= e < d + 1 && #[trigger] dv.take(d + 1)[e].contains(c);
                    if e < d {
                        assert(dv.take(d as int)[e] == dv.take(d + 1)[e]);
                    }
                }
                if occurs_in(dv.take(d as int), c) {
                    let e = choose|e: int| 0 <= e < d && #[trigger] dv.take(d as int)[e].contains(c);
                    assert(dv.take(d as int)[e] == dv.take(d + 1)[e]);
                }
            }
        }
        d = d + 1;
    }
    proof {
        assert(dv.take(nd as int) =~= dv);
    }
    out
}

/// Adds `c` to a strictly sorted list unless it is already there.
fn insert_sorted(v: &mut Vec<char>, c: char)
    requires
        strictly_sorted(old(v)@),
    ensures
        strictly_sorted(final(v)@),
        forall|x: char| #[trigger] final(v)@.contains(x) <==> (old(v)@.contains(x) || x == c),
{
    let n = v.len();
    let mut p: usize = 0;
    while p < n && v[p] < c
        invariant
            n == v@.len(),
            p <= n,
            forall|j: int| 0 <= j < p ==> #[trigger] v@[j] < c,
        decreases n - p,
    {
        p = p + 1;
    }
    if p < n && v[p] == c {
        return ;
    }
    let ghost before = v@;
    v.insert(p, c);
    proof {
        assert forall|x: char| #[trigger] v@.contains(x) <==> (before.contains(x) || x == c) by {
            if v@.contains(x) {
                let k = choose|k: int| 0 <= k < v@.len() && v@[k] == x;
                if k < p {
                    assert(before[k] == x);
                } else if k > p {
                    assert(before[k - 1] == x);
                }
            }
            if before.contains(x) {
                let k = choose|k: int| 0 <= k < before.len() && before[k] == x;
                if k < p {
                    assert(v@[k] == x);
                } else {
                    assert(v@[k + 1] == x);
                }
            }
            if x == c {
                assert(v@[p as int] == c);
            }
        }
    }
}

/// The token of `ch`: its first position in the vocabulary, which must hold
/// it.
pub fn char_to_id(uchars: &[char], ch: char) -> (r: usize)
    requires
        uchars@.contains(ch),
    ensures
        first_position(uchars@, ch, r as int),
{
    let n = uchars.len();
    let mut i: usize = 0;
    while i < n
        invariant
            n == uchars@.len(),
            i <= n,
            uchars@.contains(ch),
            forall|j: int| 0 <= j < i ==> uchars@[j] != ch,
        decreases n - i,
    {
        if uchars[i] == ch {
            return i;
        }
        i = i + 1;
    }
    proof {
        let k = choose|k: int| 0 <= k < uchars@.len() && uchars@[k] == ch;
        assert(uchars@[k] != ch);
    }
    0
}

/// The tokens of one document: the boundary token (the vocabulary size),
/// the token of each character in order, and the boundary token again.
/// Every character of the document must be in the vocabulary.
pub fn tokenize(doc: &[char], uchars: &[char]) -> (r: Vec<usize>)
    requires
        forall|i: int| 0 <= i < doc@.len() ==> uchars@.contains(#[trigger] doc@[i]),
        doc@.len() + 2 <= usize::MAX,
    ensures
        r@.len() == doc@.len() + 2,
        r@[0] == uchars@.len(),
        r@[r@.len() - 1] == uchars@.len(),
        forall|i: int| 0 <= i < doc@.len() ==> first_position(uchars@, doc@[i], #[trigger] r@[i + 1] as int),
        forall|i: int| 0 <= i < r@.len() ==> #[trigger] r@[i] <= uchars@.len(),
{
    let bos = uchars.len();
    let mut tokens: Vec<usize> = Vec::new();
    tokens.push(bos);
    let n = doc.len();
    let mut i: usize = 0;
    while i < n
        invariant
            n == doc@.len(),
            i <= n,
            bos == uchars@.len(),
            forall|k: int| 0 <= k < doc@.len() ==> uchars@.contains(#[trigger] doc@[k]),
            tokens@.len() == i + 1,
            tokens@[0] == bos,
            forall|k: int| 0 <= k < i ==> first_position(uchars@, doc@[k], #[trigger] tokens@[k + 1] as int),
        decreases n - i,
    {
        let id = char_to_id(uchars, doc[i]);
        tokens.push(id);
        i = i + 1;
    }
    tokens.push(bos);
    proof {
        assert forall|i: int| 0 <= i < tokens@.len() implies #[trigger] tokens@[i] <= uchars@.len() by {
            if 0 < i < tokens@.len() - 1 {
                assert(first_position(uchars@, doc@[i - 1], tokens@[(i - 1) + 1] as int));
            }
        }
    }
    tokens
}

/// A vocabulary built from a corpus holds every character of every
/// document, so each document can be tokenized with it.
pub proof fn lemma_vocab_covers_documents(docs: Seq<Seq<char>>, vocab: Seq<char>, d: int, i: int)
    requires
        forall|c: char| #[trigger] vocab.contains(c) <==> occurs_in(docs, c),
        0 <= d < docs.len(),
        0 <= i < docs[d].len(),
    ensures
        vocab.contains(docs[d][i]),
{
    assert(docs[d].contains(docs[d][i]));
}

} // verus!
