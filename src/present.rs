//! The text that a grouping is shown as: every key followed by its indented
//! lines, or one zero-padded count per key.
use vstd::prelude::*;
use vstd::string::*;
use crate::collection::{views, Collection};
use crate::grouping::{groupby_regex, groups_lines, line_keys, Grouping};
use crate::pattern::{GroupId, Pattern};
use crate::text::{decimal, usize_text};

verus! {

/// `s` preceded by as many `0` as it takes to reach `width` characters.
pub open spec fn zero_pad(s: Seq<char>, width: nat) -> Seq<char> {
    if s.len() >= width {
        s
    } else {
        Seq::new((width - s.len()) as nat, |i: int| '0') + s
    }
}

/// The line that shows a count: the count zero-padded to `width`, then the key.
pub open spec fn count_line_text(count: nat, width: nat, key: Seq<char>) -> Seq<char> {
    zero_pad(decimal(count), width) + ": "@ + key
}

pub open spec fn indent(line: Seq<char>) -> Seq<char> {
    "    "@ + line
}

/// The number of decimal digits of the largest of the first `n` collection sizes.
pub open spec fn widest(groups: Seq<Collection>, n: int) -> nat
    decreases n,
{
    if n <= 0 {
        0
    } else {
        let w = decimal(groups[n - 1]@.len()).len();
        let rest = widest(groups, n - 1);
        if w > rest {
            w
        } else {
            rest
        }
    }
}

/// The lines that show each key with its count.
pub open spec fn count_lines(g: Grouping) -> Seq<Seq<char>> {
    Seq::new(
        g.keys@.len(),
        |j: int| count_line_text(g.groups@[j]@.len(), widest(g.groups@, g.groups@.len() as int), g.keys@[j]@),
    )
}

/// The lines that show the first `n` keys, each followed by its indented lines.
pub open spec fn full_lines(g: Grouping, n: int) -> Seq<Seq<char>>
    decreases n,
{
    if n <= 0 {
        Seq::empty()
    } else {
        full_lines(g, n - 1) + seq![g.keys@[n - 1]@] + g.groups@[n - 1]@.map_values(|l: Seq<char>| indent(l))
    }
}

/// What a grouping is shown as.
pub open spec fn output_lines(g: Grouping, count_only: bool) -> Seq<Seq<char>> {
    if count_only {
        count_lines(g)
    } else {
        full_lines(g, g.keys@.len() as int)
    }
}

proof fn lemma_decimal_len_step(n: nat)
    requires
        n >= 10,
    ensures
        decimal(n).len() == decimal(n / 10).len() + 1,
{
}

/// The number of decimal digits of `n`.
pub fn digit_count(n: usize) -> (r: usize)
    ensures
        r == decimal(n as nat).len(),
{
    let mut m: usize = n;
    let mut r: usize = 1;
    proof {
        lemma_decimal_len_bound(n as nat);
    }
    while m >= 10
        invariant
            1 <= r <= 20,
            r + decimal(m as nat).len() - 1 == decimal(n as nat).len(),
            decimal(n as nat).len() <= 20,
        decreases m,
    {
        proof {
            lemma_decimal_len_step(m as nat);
        }
        m = m / 10;
        r = r + 1;
    }
    r
}

proof fn lemma_decimal_len_bound(n: nat)
    ensures
        decimal(n).len() >= 1,
        n <= usize::MAX ==> decimal(n).len() <= 20,
    decreases n,
{
    if n >= 10 {
        lemma_decimal_len_bound(n / 10);
        if n <= usize::MAX {
            assert(n / 10 <= 1844674407370955161);
            if decimal(n / 10).len() == 20 {
                lemma_decimal_len_at_least(n / 10, 20);
                reveal_with_fuel(pow10, 20);
                assert(false);
            }
        }
    }
}

proof fn lemma_decimal_len_at_least(n: nat, d: nat)
    requires
        decimal(n).len() >= d,
        d >= 1,
    ensures
        d >= 2 ==> n >= pow10((d - 1) as nat),
    decreases n,
{
    if d > 1 {
        if n < 10 {
        } else {
            lemma_decimal_len_step(n);
            lemma_decimal_len_at_least(n / 10, (d - 1) as nat);
            assert(n / 10 >= pow10((d - 2) as nat)) by {
                if d == 2 {
                    assert(pow10(0) == 1);
                }
            }
            assert(pow10((d - 1) as nat) == 10 * pow10((d - 2) as nat));
            assert(n >= pow10((d - 1) as nat)) by (nonlinear_arith)
                requires
                    n / 10 >= pow10((d - 2) as nat),
                    pow10((d - 1) as nat) == 10 * pow10((d - 2) as nat),
            ;
        }
    }
}

pub open spec fn pow10(e: nat) -> nat
    decreases e,
{
    if e == 0 {
        1
    } else {
        10 * pow10((e - 1) as nat)
    }
}


/// The width that counts are padded to: the digits of the largest count, or 0
/// for an empty grouping.
pub fn count_width(g: &Grouping) -> (r: usize)
    ensures
        r == widest(g.groups@, g.groups@.len() as int),
{
    let mut w: usize = 0;
    let mut j: usize = 0;
    while j < g.groups.len()
        invariant
            j <= g.groups@.len(),
            w == widest(g.groups@, j as int),
        decreases g.groups@.len() - j,
    {
        let d = digit_count(g.groups[j].len());
        if d > w {
            w = d;
        }
        j = j + 1;
    }
    w
}

/// The line that shows `count` for `key`, the count zero-padded to `width`.
pub fn count_line(count: usize, width: usize, key: &String) -> (r: String)
    ensures
        r@ == count_line_text(count as nat, width as nat, key@),
{
    let digits = usize_text(count);
    let dl = digit_count(count);
    let mut r = String::new();
    let mut k: usize = dl;
    proof {
        reveal_strlit("0");
        reveal_strlit(": ");
        assert(r@ =~= Seq::new(0, |i: int| '0'));
    }
    while k < width
        invariant
            dl <= k,
            k <= width || k == dl,
            r@ == Seq::new((k - dl) as nat, |i: int| '0'),
        decreases width - k,
    {
        proof {
            reveal_strlit("0");
        }
        r = r.concat("0");
        assert(r@ =~= Seq::new((k + 1 - dl) as nat, |i: int| '0'));
        k = k + 1;
    }
    r = r.concat(digits.as_str());
    r = r.concat(": ");
    r = r.concat(key.as_str());
    assert(r@ =~= count_line_text(count as nat, width as nat, key@));
    r
}

/// A line of a collection as it is shown under its key.
pub fn indented(line: &String) -> (r: String)
    ensures
        r@ == indent(line@),
{
    proof {
        reveal_strlit("    ");
    }
    let head = String::from_str("    ");
    head.concat(line.as_str())
}

/// The lines that show `g`: with `count_only` one count line per key, else each
/// key followed by its lines, indented.
pub fn present(g: &Grouping, count_only: bool) -> (r: Vec<String>)
    requires
        g.keys@.len() == g.groups@.len(),
    ensures
        views(r@) == output_lines(*g, count_only),
{
    let mut out: Vec<String> = Vec::new();
    assert(views(out@) =~= Seq::<Seq<char>>::empty());
    if count_only {
        let width = count_width(g);
        let mut j: usize = 0;
        while j < g.keys.len()
            invariant
                g.keys@.len() == g.groups@.len(),
                j <= g.keys@.len(),
                width == widest(g.groups@, g.groups@.len() as int),
                views(out@) == count_lines(*g).take(j as int),
            decreases g.keys@.len() - j,
        {
            let line = count_line(g.groups[j].len(), width, &g.keys[j]);
            let ghost prev = out@;
            out.push(line);
            assert(views(out@) =~= views(prev).push(line@));
            assert(count_lines(*g).take(j + 1) =~= count_lines(*g).take(j as int).push(count_lines(*g)[j as int]));
            assert(views(out@) =~= count_lines(*g).take(j + 1));
            j = j + 1;
        }
        assert(count_lines(*g).take(g.keys@.len() as int) =~= count_lines(*g));
        assert(views(out@) == count_lines(*g));
    } else {
        let mut j: usize = 0;
        while j < g.keys.len()
            invariant
                g.keys@.len() == g.groups@.len(),
                j <= g.keys@.len(),
                views(out@) == full_lines(*g, j as int),
            decreases g.keys@.len() - j,
        {
            out.push(g.keys[j].clone());
            let members = &g.groups[j].lines;
            let ghost head = full_lines(*g, j as int) + seq![g.keys@[j as int]@];
            let mut m: usize = 0;
            assert(views(out@) =~= head + views(members@).take(0).map_values(|l: Seq<char>| indent(l)));
            while m < members.len()
                invariant
                    views(out@) == head + views(members@).take(m as int).map_values(|l: Seq<char>| indent(l)),
                    m <= members@.len(),
                decreases members@.len() - m,
            {
                let shown = indented(&members[m]);
                let ghost prev = out@;
                out.push(shown);
                assert(views(out@) =~= views(prev).push(shown@));
                assert(views(members@).take(m + 1) =~= views(members@).take(m as int).push(members@[m as int]@));
                assert(views(members@).take(m + 1).map_values(|l: Seq<char>| indent(l)) =~= views(members@).take(m as int).map_values(|l: Seq<char>| indent(l)).push(indent(members@[m as int]@)));
                assert(views(out@) =~= head + views(members@).take(m + 1).map_values(|l: Seq<char>| indent(l)));
                m = m + 1;
            }
            assert(views(members@).take(members@.len() as int) =~= views(members@));
            assert(views(out@) =~= full_lines(*g, j + 1));
            j = j + 1;
        }
    }
    out
}

/// Groups `lines` as `groupby_regex` does and gives the lines that show the result.
pub fn render_groupby(
    re: &Pattern,
    group_id: &GroupId,
    lines: &Vec<String>,
    unique: bool,
    count_only: bool,
) -> (r: (Grouping, Vec<String>))
    ensures
        groups_lines(r.0, line_keys(re@, *group_id, views(lines@)), views(lines@), unique),
        views(r.1@) == output_lines(r.0, count_only),
{
    let g = groupby_regex(re, group_id, lines, unique);
    let out = present(&g, count_only);
    (g, out)
}

} // verus!
