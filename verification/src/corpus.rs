//! Splitting a text file into documents: one per line, with surrounding
//! whitespace removed and blank lines dropped.
use vstd::prelude::*;

verus! {

/// The Unicode `White_Space` property, which `char::is_whitespace` reports.
pub open spec fn white_space(c: char) -> bool {
    let u = c as u32;
    ||| 0x09 <= u <= 0x0D
    ||| u == 0x20
    ||| u == 0x85
    ||| u == 0xA0
    ||| u == 0x1680
    ||| 0x2000 <= u <= 0x200A
    ||| u == 0x2028
    ||| u == 0x2029
    ||| u == 0x202F
    ||| u == 0x205F
    ||| u == 0x3000
}

/// `char::is_whitespace`: whether `c` has the Unicode `White_Space`
/// property, the code points listed in `white_space`.
#[verifier::external_body]
fn is_white_space(c: char) -> (r: bool)
    ensures
        r == white_space(c),
{
    c.is_whitespace()
}

/// The pieces of `s` between newline characters, in order; a text with `n`
/// newlines has `n + 1` pieces.
pub open spec fn split_lines(s: Seq<char>) -> Seq<Seq<char>>
    decreases s.len(),
{
    if s.len() == 0 {
        seq![Seq::empty()]
    } else {
        let rest = split_lines(s.drop_last());
        if s.last() == '\n' {
            rest.push(Seq::empty())
        } else {
            rest.update(rest.len() - 1, rest.last().push(s.last()))
        }
    }
}

/// `l` without its leading white space.
pub open spec fn trim_start(l: Seq<char>) -> Seq<char>
    decreases l.len(),
{
    if l.len() > 0 && white_space(l[0]) {
        trim_start(l.drop_first())
    } else {
        l
    }
}

/// `l` without its trailing white space.
pub open spec fn trim_end(l: Seq<char>) -> Seq<char>
    decreases l.len(),
{
    if l.len() > 0 && white_space(l.last()) {
        trim_end(l.drop_last())
    } else {
        l
    }
}

/// `l` without white space at either end.
pub open spec fn trim(l: Seq<char>) -> Seq<char> {
    trim_end(trim_start(l))
}

/// The given lines, trimmed, with the empty ones left out.
pub open spec fn kept_lines(lines: Seq<Seq<char>>) -> Seq<Seq<char>> {
    lines.map_values(|l: Seq<char>| trim(l)).filter(|l: Seq<char>| l.len() > 0)
}

/// The documents of a text: its lines, trimmed, with the empty ones left
/// out.
pub open spec fn documents(s: Seq<char>) -> Seq<Seq<char>> {
    kept_lines(split_lines(s))
}

/// Every text has at least one line.
proof fn lemma_split_lines_nonempty(s: Seq<char>)
    ensures
        split_lines(s).len() >= 1,
    decreases s.len(),
{
    if s.len() > 0 {
        lemma_split_lines_nonempty(s.drop_last());
    }
}

/// One more line adds its trimmed form if that is not empty.
proof fn lemma_kept_lines_push(lines: Seq<Seq<char>>, x: Seq<char>)
    ensures
        kept_lines(lines.push(x)) == (if trim(x).len() > 0 {
            kept_lines(lines).push(trim(x))
        } else {
            kept_lines(lines)
        }),
{
    let f = |l: Seq<char>| trim(l);
    let p = |l: Seq<char>| l.len() > 0;
    assert(lines.push(x).map_values(f) =~= lines.map_values(f).push(trim(x)));
    lines.map_values(f).lemma_filter_push(trim(x), p);
}

/// `l` with white space removed at both ends.
fn trim_chars(l: &Vec<char>) -> (r: Vec<char>)
    ensures
        r@ == trim(l@),
{
    let n = l.len();
    let mut a: usize = 0;
    proof {
        assert(l@.subrange(0, n as int) =~= l@);
    }
    while a < n && is_white_space(l[a])
        invariant
            n == l@.len(),
            a <= n,
            trim_start(l@) == trim_start(l@.subrange(a as int, n as int)),
        decreases n - a,
    {
        proof {
            assert(l@.subrange(a as int, n as int).drop_first() =~= l@.subrange(a + 1, n as int));
        }
        a = a + 1;
    }
    let mut b: usize = n;
    while b > a && is_white_space(l[b - 1])
        invariant
            n == l@.len(),
            a <= b <= n,
            trim_start(l@) == l@.subrange(a as int, n as int),
            trim(l@) == trim_end(l@.subrange(a as int, b as int)),
        decreases b - a,
    {
        proof {
            assert(l@.subrange(a as int, b as int).drop_last() =~= l@.subrange(a as int, b - 1));
        }
        b = b - 1;
    }
    let mut out: Vec<char> = Vec::new();
    let mut k: usize = a;
    while k < b
        invariant
            n == l@.len(),
            a <= k <= b <= n,
            out@ == l@.subrange(a as int, k as int),
        decreases b - k,
    {
        out.push(l[k]);
        proof {
            assert(l@.subrange(a as int, k + 1) =~= l@.subrange(a as int, k as int).push(l@[k as int]));
        }
        k = k + 1;
    }
    out
}

/// The documents of a text: each line with the white space at both ends
/// removed, blank lines left out, in the order of the text.
pub fn parse_docs(content: &str) -> (r: Vec<Vec<char>>)
    ensures
        r.deep_view() == documents(content@),
        forall|i: int|
            0 <= i < r@.len() ==> exists|a: int, b: int|
                0 <= a <= b <= content@.len() && #[trigger] r@[i]@ == content@.subrange(a, b),
{
    broadcast use vstd::string::axiom_spec_iter;

    let mut out: Vec<Vec<char>> = Vec::new();
    let mut cur: Vec<char> = Vec::new();
    proof {
        assert(content@.take(0) =~= Seq::<char>::empty());
        assert(out.deep_view() =~= kept_lines(split_lines(Seq::<char>::empty()).drop_last()));
    }
    for c in it: content.chars()
        invariant
            it.seq() == content@,
            out.deep_view() == kept_lines(split_lines(content@.take(it.index() as int)).drop_last()),
            cur@ == split_lines(content@.take(it.index() as int)).last(),
    {
        let ghost pre = content@.take(it.index() as int);
        let ghost lines = split_lines(pre);
        proof {
            lemma_split_lines_nonempty(pre);
        }
        assert(content@.take(it.index() + 1) =~= pre.push(c));
        assert(pre.push(c).drop_last() =~= pre);
        if c == '\n' {
            let t = trim_chars(&cur);
            proof {
                lemma_kept_lines_push(lines.drop_last(), lines.last());
                assert(lines.push(Seq::empty()).drop_last() =~= lines);
                assert(lines.drop_last().push(lines.last()) =~= lines);
            }
            if t.len() > 0 {
                let ghost before = out.deep_view();
                assert(t.deep_view() =~= t@);
                out.push(t);
                proof {
                    assert(out.deep_view() =~= before.push(t@));
                }
            }
            cur = Vec::new();
        } else {
            cur.push(c);
            proof {
                assert(lines.update(lines.len() - 1, lines.last().push(c)).drop_last() =~= lines.drop_last());
            }
        }
    }
    let ghost lines = split_lines(content@);
    proof {
        assert(content@.take(content@.len() as int) =~= content@);
        lemma_split_lines_nonempty(content@);
        lemma_kept_lines_push(lines.drop_last(), lines.last());
        assert(lines.drop_last().push(lines.last()) =~= lines);
    }
    let t = trim_chars(&cur);
    if t.len() > 0 {
        let ghost before = out.deep_view();
        assert(t.deep_view() =~= t@);
        out.push(t);
        proof {
            assert(out.deep_view() =~= before.push(t@));
        }
    }
    proof {
        assert forall|i: int| 0 <= i < out@.len() implies exists|a: int, b: int|
            0 <= a <= b <= content@.len() && #[trigger] out@[i]@ == content@.subrange(a, b) by {
            assert(out@[i]@ == out.deep_view()[i]);
            lemma_documents_are_pieces(content@, i);
        }
    }
    out
}

/// Removing leading white space leaves a tail of `l` that does not start
/// with white space.
proof fn lemma_trim_start(l: Seq<char>)
    ensures
        trim_start(l).len() <= l.len(),
        trim_start(l) == l.subrange(l.len() - trim_start(l).len(), l.len() as int),
        trim_start(l).len() > 0 ==> !white_space(trim_start(l)[0]),
    decreases l.len(),
{
    if l.len() > 0 && white_space(l[0]) {
        lemma_trim_start(l.drop_first());
        let t = trim_start(l.drop_first());
        assert(l.drop_first().subrange(l.len() - 1 - t.len(), l.len() - 1) =~= l.subrange(
            l.len() - t.len(),
            l.len() as int,
        ));
    } else {
        assert(l.subrange(0, l.len() as int) =~= l);
    }
}

/// Removing trailing white space leaves a head of `l` that does not end
/// with white space.
proof fn lemma_trim_end(l: Seq<char>)
    ensures
        trim_end(l).len() <= l.len(),
        trim_end(l) == l.take(trim_end(l).len() as int),
        trim_end(l).len() > 0 ==> !white_space(trim_end(l).last()),
    decreases l.len(),
{
    if l.len() > 0 && white_space(l.last()) {
        lemma_trim_end(l.drop_last());
        let t = trim_end(l.drop_last());
        assert(l.drop_last().take(t.len() as int) =~= l.take(t.len() as int));
    } else {
        assert(l.take(l.len() as int) =~= l);
    }
}

/// No line holds a newline character.
proof fn lemma_lines_have_no_newline(s: Seq<char>)
    ensures
        forall|j: int, k: int|
            0 <= j < split_lines(s).len() && 0 <= k < split_lines(s)[j].len() ==> #[trigger] split_lines(
                s,
            )[j][k] != '\n',
    decreases s.len(),
{
    lemma_split_lines_nonempty(s);
    if s.len() > 0 {
        lemma_split_lines_nonempty(s.drop_last());
        lemma_lines_have_no_newline(s.drop_last());
        let rest = split_lines(s.drop_last());
        if s.last() != '\n' {
            assert forall|j: int, k: int|
                0 <= j < split_lines(s).len() && 0 <= k < split_lines(s)[j].len() implies #[trigger] split_lines(
                s,
            )[j][k] != '\n' by {
                if j < rest.len() - 1 {
                    assert(split_lines(s)[j] == rest[j]);
                } else if k < rest.last().len() {
                    assert(split_lines(s)[j][k] == rest[rest.len() - 1][k]);
                }
            }
        } else {
            assert forall|j: int, k: int|
                0 <= j < split_lines(s).len() && 0 <= k < split_lines(s)[j].len() implies #[trigger] split_lines(
                s,
            )[j][k] != '\n' by {
                assert(split_lines(s)[j] == rest.push(Seq::empty())[j]);
                if j < rest.len() {
                    assert(split_lines(s)[j] == rest[j]);
                }
            }
        }
    }
}

/// Every document is non-empty, holds no newline, and neither starts nor
/// ends with white space.
pub proof fn lemma_documents_are_trimmed(s: Seq<char>, i: int)
    requires
        0 <= i < documents(s).len(),
    ensures
        documents(s)[i].len() > 0,
        !white_space(documents(s)[i][0]),
        !white_space(documents(s)[i].last()),
        !documents(s)[i].contains('\n'),
{
    let f = |l: Seq<char>| trim(l);
    let p = |l: Seq<char>| l.len() > 0;
    let lines = split_lines(s);
    let mapped = lines.map_values(f);
    let d = documents(s)[i];
    mapped.lemma_filter_pred(p, i);
    assert(mapped.filter(p).contains(d));
    mapped.lemma_filter_contains_rev(p, d);
    let j = choose|j: int| 0 <= j < mapped.len() && mapped[j] == d;
    let l = lines[j];
    assert(d == trim(l));
    let ts = trim_start(l);
    lemma_trim_start(l);
    lemma_trim_end(ts);
    assert(d[0] == ts[0]);
    lemma_lines_have_no_newline(s);
    if d.contains('\n') {
        let k = choose|k: int| 0 <= k < d.len() && d[k] == '\n';
        assert(d[k] == ts[k]);
        assert(ts[k] == l[l.len() - ts.len() + k]);
        assert(lines[j][l.len() - ts.len() + k] != '\n');
    }
}

/// Every line is a contiguous piece of the text, character for character,
/// and the last line runs to the end of the text.
pub proof fn lemma_lines_are_pieces(s: Seq<char>)
    ensures
        forall|j: int|
            0 <= j < split_lines(s).len() ==> exists|a: int, b: int|
                0 <= a <= b <= s.len() && #[trigger] split_lines(s)[j] == s.subrange(a, b),
        exists|a: int| 0 <= a <= s.len() && split_lines(s).last() == s.subrange(a, s.len() as int),
    decreases s.len(),
{
    lemma_split_lines_nonempty(s);
    if s.len() == 0 {
        assert(split_lines(s)[0] =~= s.subrange(0, 0));
    } else {
        let p = s.drop_last();
        lemma_split_lines_nonempty(p);
        lemma_lines_are_pieces(p);
        let rest = split_lines(p);
        let a0 = choose|a: int| 0 <= a <= p.len() && rest.last() == p.subrange(a, p.len() as int);
        assert forall|j: int| 0 <= j < rest.len() - 1 implies exists|a: int, b: int|
            0 <= a <= b <= s.len() && #[trigger] split_lines(s)[j] == s.subrange(a, b) by {
            let (a, b) = choose|a: int, b: int|
                0 <= a <= b <= p.len() && #[trigger] rest[j] == p.subrange(a, b);
            assert(p.subrange(a, b) =~= s.subrange(a, b));
            assert(split_lines(s)[j] == rest[j]);
        }
        if s.last() == '\n' {
            assert(split_lines(s)[rest.len() - 1] == rest.last());
            assert(p.subrange(a0, p.len() as int) =~= s.subrange(a0, p.len() as int));
            assert(split_lines(s).last() =~= s.subrange(s.len() as int, s.len() as int));
        } else {
            assert(split_lines(s).last() =~= s.subrange(a0, s.len() as int));
        }
        assert(split_lines(s).len() - 1 == rest.len() - 1 || split_lines(s).len() == rest.len() + 1);
    }
}

/// Every document is a contiguous piece of the text, character for
/// character: only the white space around it and the newlines between
/// documents are left out.
pub proof fn lemma_documents_are_pieces(s: Seq<char>, i: int)
    requires
        0 <= i < documents(s).len(),
    ensures
        exists|a: int, b: int| 0 <= a <= b <= s.len() && documents(s)[i] == s.subrange(a, b),
{
    let f = |l: Seq<char>| trim(l);
    let p = |l: Seq<char>| l.len() > 0;
    let lines = split_lines(s);
    let mapped = lines.map_values(f);
    let d = documents(s)[i];
    assert(mapped.filter(p).contains(d));
    mapped.lemma_filter_contains_rev(p, d);
    let j = choose|j: int| 0 <= j < mapped.len() && mapped[j] == d;
    let l = lines[j];
    lemma_lines_are_pieces(s);
    let (a, b) = choose|a: int, b: int| 0 <= a <= b <= s.len() && #[trigger] lines[j] == s.subrange(a, b);
    let ts = trim_start(l);
    lemma_trim_start(l);
    lemma_trim_end(ts);
    let a2 = a + (l.len() - ts.len());
    let b2 = a2 + trim_end(ts).len();
    assert(d =~= s.subrange(a2, b2));
}

} // verus!
