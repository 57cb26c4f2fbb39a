//! The lines that belong to one key: either each distinct line once, in
//! lexicographic order, or every line in order of arrival.
use vstd::prelude::*;
use crate::text::{lemma_less_asymmetric, lemma_less_irreflexive, lemma_less_total, lemma_less_transitive, seq_less, text_less};

verus! {

/// The character sequences of a sequence of strings.
pub open spec fn views(v: Seq<String>) -> Seq<Seq<char>> {
    v.map_values(|s: String| s@)
}

pub open spec fn strictly_sorted(s: Seq<Seq<char>>) -> bool {
    forall|i: int, j: int| 0 <= i < j < s.len() ==> seq_less(#[trigger] s[i], #[trigger] s[j])
}

/// In a strictly sorted sequence each element is stored once.
pub proof fn lemma_sorted_distinct(s: Seq<Seq<char>>, i: int, j: int)
    requires
        strictly_sorted(s),
        0 <= i < s.len(),
        0 <= j < s.len(),
        i != j,
    ensures
        s[i] != s[j],
{
    if i < j {
        assert(seq_less(s[i], s[j]));
    } else {
        assert(seq_less(s[j], s[i]));
    }
    lemma_less_irreflexive(s[i]);
}

/// Where `x` goes in the strictly sorted `s`: the number of elements before it.
pub open spec fn sorted_position_ok(s: Seq<Seq<char>>, x: Seq<char>, i: int) -> bool {
    &&& 0 <= i <= s.len()
    &&& forall|k: int| 0 <= k < i ==> seq_less(#[trigger] s[k], x)
    &&& forall|k: int| i <= k < s.len() ==> !seq_less(#[trigger] s[k], x)
}

/// The first position in the strictly sorted `s` whose element is not below `x`.
pub fn sorted_position(s: &Vec<String>, x: &String) -> (i: usize)
    requires
        strictly_sorted(views(s@)),
    ensures
        sorted_position_ok(views(s@), x@, i as int),
{
    let mut i: usize = 0;
    while i < s.len()
        invariant
            i <= s@.len(),
            strictly_sorted(views(s@)),
            forall|k: int| 0 <= k < i ==> seq_less(#[trigger] views(s@)[k], x@),
        decreases s@.len() - i,
    {
        if !text_less(s[i].as_str(), x.as_str()) {
            assert forall|k: int| i <= k < s@.len() implies !seq_less(#[trigger] views(s@)[k], x@) by {
                if k > i {
                    assert(seq_less(views(s@)[i as int], views(s@)[k]));
                    if seq_less(views(s@)[k], x@) {
                        lemma_less_transitive(views(s@)[i as int], views(s@)[k], x@);
                    }
                }
            }
            return i;
        }
        i = i + 1;
    }
    i
}

/// Inserting `x` at its position keeps a sequence strictly sorted.
pub proof fn lemma_insert_sorted(s: Seq<Seq<char>>, x: Seq<char>, i: int)
    requires
        strictly_sorted(s),
        sorted_position_ok(s, x, i),
        i < s.len() ==> s[i] != x,
    ensures
        strictly_sorted(s.insert(i, x)),
{
    let t = s.insert(i, x);
    assert forall|a: int, b: int| 0 <= a < b < t.len() implies seq_less(#[trigger] t[a], #[trigger] t[b]) by {
        if b < i {
            assert(seq_less(s[a], s[b]));
        } else if b == i {
            assert(seq_less(s[a], x));
        } else if a == i {
            lemma_less_total(s[i], x);
            assert(!seq_less(s[i], x));
            if b - 1 > i {
                assert(seq_less(s[i], s[b - 1]));
                lemma_less_transitive(x, s[i], s[b - 1]);
            }
        } else if a < i {
            assert(seq_less(s[a], x));
            lemma_less_total(s[i], x);
            assert(seq_less(x, s[i]));
            lemma_less_transitive(s[a], x, s[i]);
            if b - 1 > i {
                assert(seq_less(s[i], s[b - 1]));
                lemma_less_transitive(s[a], s[i], s[b - 1]);
            }
        } else {
            assert(seq_less(s[a - 1], s[b - 1]));
        }
    }
}

/// The lines of one key. With `unique` each distinct line is kept once, in
/// lexicographic order; without it every line is kept, in order of arrival.
pub struct Collection {
    pub unique: bool,
    pub lines: Vec<String>,
}

impl View for Collection {
    type V = Seq<Seq<char>>;

    open spec fn view(&self) -> Seq<Seq<char>> {
        views(self.lines@)
    }
}

impl Collection {
    pub open spec fn wf(&self) -> bool {
        self.unique ==> strictly_sorted(self@)
    }

    /// An empty collection of the given kind.
    pub fn new(unique: bool) -> (r: Collection)
        ensures
            r.wf(),
            r.unique == unique,
            r@ == Seq::<Seq<char>>::empty(),
    {
        let r = Collection { unique, lines: Vec::new() };
        assert(r@ =~= Seq::<Seq<char>>::empty());
        r
    }

    /// Adds a line: appended when every line is kept, merged into the ordered set
    /// of distinct lines when `unique`.
    pub fn add(&mut self, line: String)
        requires
            old(self).wf(),
        ensures
            final(self).wf(),
            final(self).unique == old(self).unique,
            !old(self).unique ==> final(self)@ == old(self)@.push(line@),
            old(self).unique ==> final(self)@.to_set() == old(self)@.to_set().insert(line@),
            old(self).unique && old(self)@.contains(line@) ==> final(self)@ == old(self)@,
    {
        if !self.unique {
            self.lines.push(line);
            assert(self@ =~= old(self)@.push(line@));
            return;
        }
        let i = sorted_position(&self.lines, &line);
        if i < self.lines.len() && self.lines[i] == line {
            assert(old(self)@[i as int] == line@);
            return;
        }
        proof {
            if old(self)@.contains(line@) {
                let k = choose|k: int| 0 <= k < old(self)@.len() && old(self)@[k] == line@;
                lemma_less_irreflexive(line@);
                if k > i {
                    assert(!seq_less(old(self)@[i as int], line@));
                    lemma_less_total(old(self)@[i as int], line@);
                    assert(seq_less(old(self)@[i as int], old(self)@[k]));
                    lemma_less_asymmetric(line@, old(self)@[i as int]);
                }
            }
        }
        self.lines.insert(i, line);
        proof {
            assert(self@ =~= old(self)@.insert(i as int, line@));
            lemma_insert_sorted(old(self)@, line@, i as int);
            assert(self@.to_set() =~= old(self)@.to_set().insert(line@)) by {
                assert forall|x: Seq<char>| old(self)@.to_set().insert(line@).contains(x) implies self@.to_set().contains(x) by {
                    if x != line@ {
                        assert(old(self)@.contains(x));
                        let k = choose|k: int| 0 <= k < old(self)@.len() && old(self)@[k] == x;
                        if k < i {
                            assert(self@[k] == x);
                        } else {
                            assert(self@[k + 1] == x);
                        }
                    } else {
                        assert(self@[i as int] == x);
                    }
                }
                assert forall|x: Seq<char>| self@.to_set().contains(x) implies old(self)@.to_set().insert(line@).contains(x) by {
                    if x != line@ {
                        assert(self@.contains(x));
                        let k = choose|k: int| 0 <= k < self@.len() && self@[k] == x;
                        if k < i {
                            assert(old(self)@[k] == x);
                        } else {
                            assert(old(self)@[k - 1] == x);
                        }
                    }
                }
            }
        }
    }

    /// The number of lines held.
    pub fn len(&self) -> (r: usize)
        ensures
            r == self@.len(),
    {
        self.lines.len()
    }
}

} // verus!
