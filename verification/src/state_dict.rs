//! The parameter store: named matrices of tape indices, kept in insertion
//! order.
use vstd::prelude::*;

verus! {

/// The abstract contents of a store: each entry is a name and a matrix of
/// node indices, in insertion order.
pub type Entries = Seq<(Seq<char>, Seq<Seq<usize>>)>;

/// The matrix stored under the first entry named `key`, if any.
pub open spec fn lookup(entries: Entries, key: Seq<char>) -> Option<Seq<Seq<usize>>>
    decreases entries.len(),
{
    if entries.len() == 0 {
        None
    } else if entries[0].0 == key {
        Some(entries[0].1)
    } else {
        lookup(entries.drop_first(), key)
    }
}

/// All node indices of all matrices, entry by entry, row by row.
pub open spec fn flat_indices(entries: Entries) -> Seq<usize>
    decreases entries.len(),
{
    if entries.len() == 0 {
        Seq::empty()
    } else {
        flat_indices(entries.drop_last()) + entries.last().1.flatten()
    }
}

/// Named matrices of node indices; a later entry with a name already present
/// is kept but shadowed by the first one.
pub struct StateDict {
    entries: Vec<(String, Vec<Vec<usize>>)>,
}

impl View for StateDict {
    type V = Entries;

    closed spec fn view(&self) -> Entries {
        self.entries@.map_values(
            |e: (String, Vec<Vec<usize>>)| (e.0@, e.1.deep_view()),
        )
    }
}

impl StateDict {
    /// An empty store.
    pub fn new() -> (r: StateDict)
        ensures
            r@ == Seq::<(Seq<char>, Seq<Seq<usize>>)>::empty(),
    {
        StateDict { entries: Vec::new() }
    }

    /// Appends the entry `(key, val)`.
    pub fn insert(&mut self, key: &str, val: Vec<Vec<usize>>)
        ensures
            final(self)@ == old(self)@.push((key@, val.deep_view())),
    {
        broadcast use vstd::string::to_string_from_display_ensures_for_str;

        let k = key.to_string();
        self.entries.push((k, val));
        assert(self@ =~= old(self)@.push((key@, val.deep_view())));
    }

    /// The matrix of the first entry named `key`; the name must be present.
    pub fn get(&self, key: &str) -> (r: &Vec<Vec<usize>>)
        requires
            lookup(self@, key@) is Some,
        ensures
            lookup(self@, key@) == Some(r.deep_view()),
    {
        let wanted = key.to_string();
        proof {
            vstd::string::to_string_from_display_ensures_for_str(key, wanted);
            assert(self@.skip(0) =~= self@);
        }
        let n = self.entries.len();
        let mut i: usize = 0;
        while i < n
            invariant
                n == self.entries@.len(),
                i <= n,
                wanted@ == key@,
                lookup(self@, key@) is Some,
                lookup(self@, key@) == lookup(self@.skip(i as int), key@),
            decreases n - i,
        {
            let k = &self.entries[i].0;
            proof {
                lemma_lookup_step(self@, i as int, key@);
            }
            if k.eq(&wanted) {
                return &self.entries[i].1;
            }
            i = i + 1;
        }
        proof {
            assert(self@.skip(n as int).len() == 0);
        }
        &self.entries[0].1
    }

    /// Every node index of every matrix, entry by entry, row by row.
    pub fn param_indices(&self) -> (r: Vec<usize>)
        ensures
            r@ == flat_indices(self@),
            r@ == self@.map_values(|e: (Seq<char>, Seq<Seq<usize>>)| e.1.flatten()).flatten(),
    {
        proof {
            lemma_flat_indices_concatenates(self@);
        }
        let mut out: Vec<usize> = Vec::new();
        let n = self.entries.len();
        let mut k: usize = 0;
        while k < n
            invariant
                n == self.entries@.len(),
                k <= n,
                out@ == flat_indices(self@.take(k as int)),
            decreases n - k,
        {
            let mat = &self.entries[k].1;
            let ghost prefix = out@;
            let ghost m = self@[k as int].1;
            assert(mat.deep_view() == m);
            let rows = mat.len();
            let mut r: usize = 0;
            while r < rows
                invariant
                    rows == mat@.len(),
                    m == mat.deep_view(),
                    r <= rows,
                    out@ == prefix + m.take(r as int).flatten(),
                decreases rows - r,
            {
                let row = &mat[r];
                let ghost mid = out@;
                assert(row@ == m[r as int]);
                let cols = row.len();
                let mut c: usize = 0;
                while c < cols
                    invariant
                        cols == row@.len(),
                        c <= cols,
                        out@ == mid + row@.take(c as int),
                    decreases cols - c,
                {
                    out.push(row[c]);
                    assert(row@.take(c + 1) =~= row@.take(c as int).push(row@[c as int]));
                    c = c + 1;
                }
                proof {
                    assert(row@.take(cols as int) =~= row@);
                    assert(m.take(r + 1) =~= m.take(r as int).push(m[r as int]));
                    m.take(r as int).lemma_flatten_push(m[r as int]);
                }
                r = r + 1;
            }
            proof {
                assert(m.take(rows as int) =~= m);
                assert(self@.take(k + 1).drop_last() =~= self@.take(k as int));
                assert(self@.take(k + 1).last() == self@[k as int]);
            }
            k = k + 1;
        }
        proof {
            assert(self@.take(n as int) =~= self@);
        }
        out
    }

    /// The entries themselves, in insertion order.
    pub fn entries(&self) -> (r: &Vec<(String, Vec<Vec<usize>>)>)
        ensures
            r@.len() == self@.len(),
            forall|i: int|
                0 <= i < r@.len() ==> (#[trigger] r@[i]).0@ == self@[i].0 && r@[i].1.deep_view()
                    == self@[i].1,
    {
        &self.entries
    }
}

/// Reading back after an insertion: a name already present keeps its first
/// matrix; a new name now yields the inserted matrix; other names stay
/// absent.
pub proof fn lemma_lookup_after_insert(
    entries: Entries,
    key: Seq<char>,
    val: Seq<Seq<usize>>,
    q: Seq<char>,
)
    ensures
        lookup(entries.push((key, val)), q) == (if lookup(entries, q) is Some {
            lookup(entries, q)
        } else if q == key {
            Some(val)
        } else {
            None
        }),
    decreases entries.len(),
{
    let pushed = entries.push((key, val));
    if entries.len() == 0 {
        assert(pushed.drop_first().len() == 0);
    } else {
        assert(pushed.drop_first() =~= entries.drop_first().push((key, val)));
        lemma_lookup_after_insert(entries.drop_first(), key, val, q);
    }
}

/// Looking up past position `i`: the entry at `i` answers if its name
/// matches, otherwise the search goes on from `i + 1`.
proof fn lemma_lookup_step(entries: Entries, i: int, key: Seq<char>)
    requires
        0 <= i < entries.len(),
    ensures
        entries[i].0 == key ==> lookup(entries.skip(i), key) == Some(entries[i].1),
        entries[i].0 != key ==> lookup(entries.skip(i), key) == lookup(entries.skip(i + 1), key),
{
    assert(entries.skip(i).drop_first() =~= entries.skip(i + 1));
    assert(entries.skip(i)[0] == entries[i]);
}

/// The flattened indices are all rows of all matrices concatenated, entry
/// by entry and row by row: nothing is left out, repeated or reordered.
pub proof fn lemma_flat_indices_concatenates(entries: Entries)
    ensures
        flat_indices(entries) == entries.map_values(
            |e: (Seq<char>, Seq<Seq<usize>>)| e.1.flatten(),
        ).flatten(),
    decreases entries.len(),
{
    let f = |e: (Seq<char>, Seq<Seq<usize>>)| e.1.flatten();
    if entries.len() == 0 {
        assert(entries.map_values(f) =~= Seq::<Seq<usize>>::empty());
        assert(Seq::<Seq<usize>>::empty().flatten() =~= Seq::<usize>::empty());
    } else {
        lemma_flat_indices_concatenates(entries.drop_last());
        assert(entries.map_values(f) =~= entries.drop_last().map_values(f).push(
            entries.last().1.flatten(),
        ));
        entries.drop_last().map_values(f).lemma_flatten_push(entries.last().1.flatten());
    }
}

} // verus!
