//! What holds of every grouping that the engine builds.
use vstd::prelude::*;
use crate::collection::{lemma_sorted_distinct, strictly_sorted, Collection};
use crate::grouping::{groups_lines, line_keys, lines_with_key, Grouping};
use crate::pattern::{line_key, GroupId};
use crate::text::seq_less;

verus! {

/// A line is among the lines with key `k` exactly when it stands at a position
/// whose key is `k`.
pub proof fn lemma_lines_with_key_contains(keys: Seq<Seq<char>>, lines: Seq<Seq<char>>, k: Seq<char>, x: Seq<char>)
    requires
        keys.len() == lines.len(),
    ensures
        lines_with_key(keys, lines, k).contains(x) <==> exists|i: int|
            0 <= i < lines.len() && keys[i] == k && #[trigger] lines[i] == x,
    decreases lines.len(),
{
    if lines.len() > 0 {
        let n = lines.len() - 1;
        let ks = keys.drop_last();
        let ls = lines.drop_last();
        lemma_lines_with_key_contains(ks, ls, k, x);
        let rest = lines_with_key(keys, ls, k);
        assert(lines_with_key(ks, ls, k) == rest) by {
            lemma_lines_with_key_prefix_keys(keys, ls, k);
        }
        if lines_with_key(keys, lines, k).contains(x) {
            if keys[n] == k && lines[n] == x {
            } else {
                if keys[n] == k {
                    let j = choose|j: int| 0 <= j < rest.len() + 1 && rest.push(lines[n])[j] == x;
                    assert(rest[j] == x);
                }
                assert(rest.contains(x));
                let i = choose|i: int| 0 <= i < ls.len() && ks[i] == k && #[trigger] ls[i] == x;
                assert(lines[i] == x);
            }
        }
        if exists|i: int| 0 <= i < lines.len() && keys[i] == k && #[trigger] lines[i] == x {
            let i = choose|i: int| 0 <= i < lines.len() && keys[i] == k && #[trigger] lines[i] == x;
            if i == n {
                assert(rest.push(lines[n])[rest.len() as int] == x);
            } else {
                assert(ls[i] == x);
                assert(rest.contains(x));
                let j = choose|j: int| 0 <= j < rest.len() && rest[j] == x;
                if keys[n] == k {
                    assert(rest.push(lines[n])[j] == x);
                }
            }
        }
    }
}

/// Only the keys of the positions that `lines` has are read.
pub proof fn lemma_lines_with_key_prefix_keys(keys: Seq<Seq<char>>, lines: Seq<Seq<char>>, k: Seq<char>)
    requires
        lines.len() <= keys.len(),
    ensures
        lines_with_key(keys.take(lines.len() as int), lines, k) == lines_with_key(keys, lines, k),
    decreases lines.len(),
{
    if lines.len() > 0 {
        lemma_lines_with_key_prefix_keys(keys, lines.drop_last(), k);
        lemma_lines_with_key_prefix_keys(keys.take(lines.len() as int), lines.drop_last(), k);
        assert(keys.take(lines.len() as int).take(lines.len() - 1) =~= keys.take(lines.len() - 1));
    }
}

/// Every line lands in the collection of its own key, and in no other.
pub proof fn law_each_line_in_one_group(
    g: Grouping,
    pattern: Seq<char>,
    group_id: GroupId,
    lines: Seq<Seq<char>>,
    unique: bool,
    i: int,
)
    requires
        groups_lines(g, line_keys(pattern, group_id, lines), lines, unique),
        0 <= i < lines.len(),
    ensures
        g.key_seq().contains(line_key(pattern, group_id, lines[i])),
        g.members(line_key(pattern, group_id, lines[i])).contains(lines[i]),
        forall|k: Seq<char>| #[trigger] g.members(k).contains(lines[i]) ==> k == line_key(pattern, group_id, lines[i]),
{
    let keys = line_keys(pattern, group_id, lines);
    let key = line_key(pattern, group_id, lines[i]);
    assert(keys[i] == key);
    lemma_lines_with_key_contains(keys, lines, key, lines[i]);
    assert(lines_with_key(keys, lines, key).contains(lines[i]));
    if unique {
        assert(lines_with_key(keys, lines, key).to_set().contains(lines[i]));
        assert(g.members(key).to_set().contains(lines[i]));
    }
    if !g.key_seq().contains(key) {
        assert(g.members(key) =~= Seq::<Seq<char>>::empty());
        assert(g.members(key).to_set().contains(lines[i]));
    }
    assert forall|k: Seq<char>| #[trigger] g.members(k).contains(lines[i]) implies k == key by {
        lemma_lines_with_key_contains(keys, lines, k, lines[i]);
        if unique {
            assert(g.members(k).to_set().contains(lines[i]));
            assert(lines_with_key(keys, lines, k).to_set().contains(lines[i]));
        }
        assert(lines_with_key(keys, lines, k).contains(lines[i]));
        let j = choose|j: int| 0 <= j < lines.len() && keys[j] == k && #[trigger] lines[j] == lines[i];
        assert(keys[j] == line_key(pattern, group_id, lines[j]));
    }
}


/// Keeping every line, the collection of each key holds exactly the lines with
/// that key, in the order in which they came.
pub proof fn law_all_keeps_arrival_order(
    g: Grouping,
    pattern: Seq<char>,
    group_id: GroupId,
    lines: Seq<Seq<char>>,
    j: int,
)
    requires
        groups_lines(g, line_keys(pattern, group_id, lines), lines, false),
        0 <= j < g.keys@.len(),
    ensures
        g.groups@[j]@ == lines_with_key(line_keys(pattern, group_id, lines), lines, g.key_seq()[j]),
{
    g.lemma_members_at(j);
    assert(g.members(g.key_seq()[j]) == lines_with_key(line_keys(pattern, group_id, lines), lines, g.key_seq()[j]));
}

/// Keeping distinct lines, the collection of each key holds each line with that
/// key exactly once, and nothing else, in ascending order.
pub proof fn law_unique_keeps_distinct_sorted(
    g: Grouping,
    pattern: Seq<char>,
    group_id: GroupId,
    lines: Seq<Seq<char>>,
    j: int,
)
    requires
        groups_lines(g, line_keys(pattern, group_id, lines), lines, true),
        0 <= j < g.keys@.len(),
    ensures
        g.groups@[j]@.to_set() == lines_with_key(line_keys(pattern, group_id, lines), lines, g.key_seq()[j]).to_set(),
        strictly_sorted(g.groups@[j]@),
        forall|a: int, b: int| 0 <= a < b < g.groups@[j]@.len() ==> g.groups@[j]@[a] != g.groups@[j]@[b],
{
    g.lemma_members_at(j);
    assert(g.members(g.key_seq()[j]).to_set() == lines_with_key(line_keys(pattern, group_id, lines), lines, g.key_seq()[j]).to_set());
    assert(g.groups@[j].wf());
    assert forall|a: int, b: int| 0 <= a < b < g.groups@[j]@.len() implies g.groups@[j]@[a] != g.groups@[j]@[b] by {
        lemma_sorted_distinct(g.groups@[j]@, a, b);
    }
}

/// Keys stand in strictly ascending order, so none stands twice.
pub proof fn law_keys_ascending(g: Grouping, keys: Seq<Seq<char>>, lines: Seq<Seq<char>>, unique: bool)
    requires
        groups_lines(g, keys, lines, unique),
    ensures
        forall|a: int, b: int| 0 <= a < b < g.key_seq().len() ==> seq_less(#[trigger] g.key_seq()[a], #[trigger] g.key_seq()[b]),
        forall|a: int, b: int| 0 <= a < b < g.key_seq().len() ==> g.key_seq()[a] != g.key_seq()[b],
{
    assert forall|a: int, b: int| 0 <= a < b < g.key_seq().len() implies g.key_seq()[a] != g.key_seq()[b] by {
        lemma_sorted_distinct(g.key_seq(), a, b);
    }
}


/// The sum of the sizes of the first `m` collections.
pub open spec fn total_count(groups: Seq<Collection>, m: int) -> nat
    decreases m,
{
    if m <= 0 {
        0
    } else {
        total_count(groups, m - 1) + groups[m - 1]@.len()
    }
}

/// The number of lines with key `names[j]`, summed over `j < m`.
pub open spec fn lines_per_key_total(names: Seq<Seq<char>>, keys: Seq<Seq<char>>, lines: Seq<Seq<char>>, m: int) -> nat
    decreases m,
{
    if m <= 0 {
        0
    } else {
        lines_per_key_total(names, keys, lines, m - 1) + lines_with_key(keys, lines, names[m - 1]).len()
    }
}

/// How many of the first `m` elements of `s` equal `x`.
pub open spec fn occurrences(s: Seq<Seq<char>>, x: Seq<char>, m: int) -> nat
    decreases m,
{
    if m <= 0 {
        0
    } else {
        occurrences(s, x, m - 1) + if s[m - 1] == x { 1nat } else { 0nat }
    }
}

proof fn lemma_occurrences_once(s: Seq<Seq<char>>, p: int, m: int)
    requires
        strictly_sorted(s),
        0 <= p < s.len(),
        0 <= m <= s.len(),
    ensures
        occurrences(s, s[p], m) == if p < m { 1nat } else { 0nat },
    decreases m,
{
    if m > 0 {
        lemma_occurrences_once(s, p, m - 1);
        if m - 1 != p {
            lemma_sorted_distinct(s, m - 1, p);
        }
    }
}

proof fn lemma_total_empty(names: Seq<Seq<char>>, keys: Seq<Seq<char>>, lines: Seq<Seq<char>>, m: int)
    requires
        lines.len() == 0,
    ensures
        lines_per_key_total(names, keys, lines, m) == 0,
    decreases m,
{
    if m > 0 {
        lemma_total_empty(names, keys, lines, m - 1);
    }
}

proof fn lemma_total_step(names: Seq<Seq<char>>, keys: Seq<Seq<char>>, lines: Seq<Seq<char>>, n: int, m: int)
    requires
        0 <= n < lines.len(),
        lines.len() <= keys.len(),
    ensures
        lines_per_key_total(names, keys, lines.take(n + 1), m) == lines_per_key_total(names, keys, lines.take(n), m)
            + occurrences(names, keys[n], m),
    decreases m,
{
    if m > 0 {
        lemma_total_step(names, keys, lines, n, m - 1);
        assert(lines.take(n + 1).drop_last() =~= lines.take(n));
    }
}

proof fn lemma_total_counts_lines(names: Seq<Seq<char>>, keys: Seq<Seq<char>>, lines: Seq<Seq<char>>, n: int)
    requires
        strictly_sorted(names),
        0 <= n <= lines.len(),
        lines.len() <= keys.len(),
        forall|i: int| 0 <= i < n ==> names.contains(#[trigger] keys[i]),
    ensures
        lines_per_key_total(names, keys, lines.take(n), names.len() as int) == n,
    decreases n,
{
    if n == 0 {
        lemma_total_empty(names, keys, lines.take(0), names.len() as int);
    } else {
        lemma_total_counts_lines(names, keys, lines, n - 1);
        lemma_total_step(names, keys, lines, n - 1, names.len() as int);
        assert(names.contains(keys[n - 1]));
        let p = choose|p: int| 0 <= p < names.len() && names[p] == keys[n - 1];
        lemma_occurrences_once(names, p, names.len() as int);
    }
}

proof fn lemma_total_is_per_key(g: Grouping, keys: Seq<Seq<char>>, lines: Seq<Seq<char>>, m: int)
    requires
        groups_lines(g, keys, lines, false),
        0 <= m <= g.keys@.len(),
    ensures
        total_count(g.groups@, m) == lines_per_key_total(g.key_seq(), keys, lines, m),
    decreases m,
{
    if m > 0 {
        lemma_total_is_per_key(g, keys, lines, m - 1);
        g.lemma_members_at(m - 1);
        assert(g.members(g.key_seq()[m - 1]) == lines_with_key(keys, lines, g.key_seq()[m - 1]));
    }
}

/// Keeping every line, the sizes of the collections add up to the number of lines.
pub proof fn law_all_counts_sum_to_lines(g: Grouping, keys: Seq<Seq<char>>, lines: Seq<Seq<char>>)
    requires
        keys.len() == lines.len(),
        groups_lines(g, keys, lines, false),
    ensures
        total_count(g.groups@, g.groups@.len() as int) == lines.len(),
{
    let names = g.key_seq();
    assert(keys.take(lines.len() as int) =~= keys);
    assert forall|i: int| 0 <= i < lines.len() implies names.contains(#[trigger] keys[i]) by {
        assert(keys.to_set().contains(keys[i]));
        assert(names.to_set().contains(keys[i]));
    }
    lemma_total_counts_lines(names, keys, lines, lines.len() as int);
    assert(lines.take(lines.len() as int) =~= lines);
    lemma_total_is_per_key(g, keys, lines, g.keys@.len() as int);
}


/// The number of distinct lines with key `names[j]`, summed over `j < m`.
pub open spec fn distinct_per_key_total(names: Seq<Seq<char>>, keys: Seq<Seq<char>>, lines: Seq<Seq<char>>, m: int) -> nat
    decreases m,
{
    if m <= 0 {
        0
    } else {
        distinct_per_key_total(names, keys, lines, m - 1) + lines_with_key(keys, lines, names[m - 1]).to_set().len()
    }
}

proof fn lemma_distinct_total_empty(names: Seq<Seq<char>>, keys: Seq<Seq<char>>, lines: Seq<Seq<char>>, m: int)
    requires
        lines.len() == 0,
    ensures
        distinct_per_key_total(names, keys, lines, m) == 0,
    decreases m,
{
    if m > 0 {
        lemma_distinct_total_empty(names, keys, lines, m - 1);
        assert(lines_with_key(keys, lines, names[m - 1]).to_set() =~= Set::<Seq<char>>::empty());
    }
}

proof fn lemma_distinct_total_step(names: Seq<Seq<char>>, keys: Seq<Seq<char>>, lines: Seq<Seq<char>>, n: int, m: int)
    requires
        0 <= n < lines.len(),
        lines.len() <= keys.len(),
    ensures
        distinct_per_key_total(names, keys, lines.take(n + 1), m) == distinct_per_key_total(names, keys, lines.take(n), m)
            + if lines_with_key(keys, lines.take(n), keys[n]).to_set().contains(lines[n]) {
            0nat
        } else {
            occurrences(names, keys[n], m)
        },
    decreases m,
{
    broadcast use vstd::seq_lib::seq_to_set_is_finite;

    if m > 0 {
        lemma_distinct_total_step(names, keys, lines, n, m - 1);
        assert(lines.take(n + 1).drop_last() =~= lines.take(n));
        let before = lines_with_key(keys, lines.take(n), names[m - 1]);
        if names[m - 1] == keys[n] {
            assert(lines_with_key(keys, lines.take(n + 1), names[m - 1]) == before.push(lines[n]));
            before.lemma_push_to_set_commute(lines[n]);
        }
    }
}

proof fn lemma_distinct_total_counts_lines(
    names: Seq<Seq<char>>,
    keys: Seq<Seq<char>>,
    lines: Seq<Seq<char>>,
    n: int,
)
    requires
        strictly_sorted(names),
        0 <= n <= lines.len(),
        lines.len() == keys.len(),
        forall|i: int| 0 <= i < n ==> names.contains(#[trigger] keys[i]),
        forall|i: int, j: int| 0 <= i < lines.len() && 0 <= j < lines.len() && lines[i] == lines[j] ==> keys[i] == keys[j],
    ensures
        distinct_per_key_total(names, keys, lines.take(n), names.len() as int) == lines.take(n).to_set().len(),
    decreases n,
{
    broadcast use vstd::seq_lib::seq_to_set_is_finite;

    if n == 0 {
        lemma_distinct_total_empty(names, keys, lines.take(0), names.len() as int);
        assert(lines.take(0).to_set() =~= Set::<Seq<char>>::empty());
    } else {
        let i = n - 1;
        lemma_distinct_total_counts_lines(names, keys, lines, i);
        lemma_distinct_total_step(names, keys, lines, i, names.len() as int);
        assert(names.contains(keys[i]));
        let p = choose|p: int| 0 <= p < names.len() && names[p] == keys[i];
        lemma_occurrences_once(names, p, names.len() as int);
        let prefix = lines.take(i);
        assert(lines.take(n) =~= prefix.push(lines[i]));
        prefix.lemma_push_to_set_commute(lines[i]);
        let same = lines_with_key(keys, prefix, keys[i]);
        lemma_lines_with_key_prefix_keys(keys, prefix, keys[i]);
        lemma_lines_with_key_contains(keys.take(i), prefix, keys[i], lines[i]);
        if same.to_set().contains(lines[i]) {
            assert(same.contains(lines[i]));
            let j = choose|j: int| 0 <= j < prefix.len() && keys.take(i)[j] == keys[i] && #[trigger] prefix[j] == lines[i];
            assert(prefix.contains(lines[i]));
        }
        if prefix.to_set().contains(lines[i]) {
            assert(prefix.contains(lines[i]));
            let j = choose|j: int| 0 <= j < prefix.len() && prefix[j] == lines[i];
            assert(lines[j] == lines[i]);
            assert(keys.take(i)[j] == keys[i]);
            assert(same.contains(lines[i]));
        }
    }
}

proof fn lemma_distinct_total_is_per_key(g: Grouping, keys: Seq<Seq<char>>, lines: Seq<Seq<char>>, m: int)
    requires
        groups_lines(g, keys, lines, true),
        0 <= m <= g.keys@.len(),
    ensures
        total_count(g.groups@, m) == distinct_per_key_total(g.key_seq(), keys, lines, m),
    decreases m,
{
    if m > 0 {
        lemma_distinct_total_is_per_key(g, keys, lines, m - 1);
        let j = m - 1;
        g.lemma_members_at(j);
        let s = g.groups@[j]@;
        assert(g.members(g.key_seq()[j]).to_set() == lines_with_key(keys, lines, g.key_seq()[j]).to_set());
        assert(g.groups@[j].wf());
        assert(s.no_duplicates()) by {
            assert forall|a: int, b: int| 0 <= a < s.len() && 0 <= b < s.len() && a != b implies s[a] != s[b] by {
                lemma_sorted_distinct(s, a, b);
            }
        }
        s.unique_seq_to_set();
    }
}

/// Keeping distinct lines, the sizes of the collections add up to the number
/// of distinct lines.
pub proof fn law_unique_counts_sum_to_distinct_lines(
    g: Grouping,
    pattern: Seq<char>,
    group_id: GroupId,
    lines: Seq<Seq<char>>,
)
    requires
        groups_lines(g, line_keys(pattern, group_id, lines), lines, true),
    ensures
        total_count(g.groups@, g.groups@.len() as int) == lines.to_set().len(),
{
    let keys = line_keys(pattern, group_id, lines);
    let names = g.key_seq();
    assert(keys.take(lines.len() as int) =~= keys);
    assert forall|i: int| 0 <= i < lines.len() implies names.contains(#[trigger] keys[i]) by {
        assert(keys.to_set().contains(keys[i]));
        assert(names.to_set().contains(keys[i]));
    }
    assert forall|i: int, j: int| 0 <= i < lines.len() && 0 <= j < lines.len() && lines[i] == lines[j] implies keys[i] == keys[j] by {
        assert(keys[i] == line_key(pattern, group_id, lines[i]));
        assert(keys[j] == line_key(pattern, group_id, lines[j]));
    }
    lemma_distinct_total_counts_lines(names, keys, lines, lines.len() as int);
    assert(lines.take(lines.len() as int) =~= lines);
    lemma_distinct_total_is_per_key(g, keys, lines, g.keys@.len() as int);
}

} // verus!
