//! Edit distance between two strings, counted in Unicode code points.

use vstd::prelude::*;

verus! {

/// The smallest of three numbers.
pub open spec fn min3(x: nat, y: nat, z: nat) -> nat {
    if x <= y && x <= z {
        x
    } else if y <= z {
        y
    } else {
        z
    }
}

/// What replacing `x` by `y` costs: nothing when they are the same character.
pub open spec fn substitution_cost(x: char, y: char) -> nat {
    if x == y {
        0
    } else {
        1
    }
}

/// The Levenshtein distance between `a` and `b`: the least number of
/// single-character insertions, deletions and substitutions that turn `a`
/// into `b`.
///
/// An empty side costs the length of the other. Otherwise the last
/// character of `a` is deleted, the last character of `b` is inserted, or
/// the one is substituted for the other, whichever is cheapest. That this
/// is the cost of the cheapest edit script is shown in [`crate::edits`].
pub open spec fn edit_distance(a: Seq<char>, b: Seq<char>) -> nat
    decreases a.len() + b.len(),
{
    if a.len() == 0 {
        b.len()
    } else if b.len() == 0 {
        a.len()
    } else {
        min3(
            edit_distance(a.drop_last(), b) + 1,
            edit_distance(a, b.drop_last()) + 1,
            edit_distance(a.drop_last(), b.drop_last()) + substitution_cost(a.last(), b.last()),
        )
    }
}

/// The distance between the first `i` characters of `a` and the first `j`
/// characters of `b`: one cell of the dynamic-programming table.
spec fn prefix_distance(a: Seq<char>, b: Seq<char>, i: int, j: int) -> nat {
    edit_distance(a.take(i), b.take(j))
}

/// The distance does not depend on the order of its arguments.
pub proof fn lemma_edit_distance_symmetric(a: Seq<char>, b: Seq<char>)
    ensures
        edit_distance(a, b) == edit_distance(b, a),
    decreases a.len() + b.len(),
{
    if a.len() > 0 && b.len() > 0 {
        lemma_edit_distance_symmetric(a.drop_last(), b);
        lemma_edit_distance_symmetric(a, b.drop_last());
        lemma_edit_distance_symmetric(a.drop_last(), b.drop_last());
    }
}

/// A string is at distance zero from itself.
pub proof fn lemma_edit_distance_identity(s: Seq<char>)
    ensures
        edit_distance(s, s) == 0,
    decreases s.len(),
{
    if s.len() > 0 {
        lemma_edit_distance_identity(s.drop_last());
    }
}

/// From the empty string, the distance to `s` is the length of `s`, in
/// either direction.
pub proof fn lemma_edit_distance_empty(s: Seq<char>)
    ensures
        edit_distance(Seq::<char>::empty(), s) == s.len(),
        edit_distance(s, Seq::<char>::empty()) == s.len(),
{
}

/// The distance is at least the difference of the two lengths and at most
/// the greater of them.
pub proof fn lemma_edit_distance_bounds(a: Seq<char>, b: Seq<char>)
    ensures
        edit_distance(a, b) <= a.len() || edit_distance(a, b) <= b.len(),
        edit_distance(a, b) + a.len() >= b.len(),
        edit_distance(a, b) + b.len() >= a.len(),
    decreases a.len() + b.len(),
{
    if a.len() > 0 && b.len() > 0 {
        lemma_edit_distance_bounds(a.drop_last(), b);
        lemma_edit_distance_bounds(a, b.drop_last());
        lemma_edit_distance_bounds(a.drop_last(), b.drop_last());
    }
}

/// Only equal strings are at distance zero.
pub proof fn lemma_edit_distance_zero(a: Seq<char>, b: Seq<char>)
    ensures
        edit_distance(a, b) == 0 <==> a == b,
    decreases a.len() + b.len(),
{
    if a.len() > 0 && b.len() > 0 {
        lemma_edit_distance_zero(a.drop_last(), b.drop_last());
        if edit_distance(a, b) == 0 {
            assert(a.drop_last() == b.drop_last());
            assert(a.last() == b.last());
            assert(a =~= a.drop_last().push(a.last()));
            assert(b =~= b.drop_last().push(b.last()));
        }
        if a == b {
            lemma_edit_distance_identity(a);
        }
    } else if a.len() == 0 && b.len() == 0 {
        assert(a =~= b);
    }
}

/// Going by way of a third string is never shorter: the distance obeys
/// the triangle inequality.
pub proof fn lemma_edit_distance_triangle(a: Seq<char>, b: Seq<char>, c: Seq<char>)
    ensures
        edit_distance(a, c) <= edit_distance(a, b) + edit_distance(b, c),
    decreases a.len() + b.len() + c.len(),
{
    if a.len() == 0 || c.len() == 0 {
        lemma_edit_distance_bounds(a, b);
        lemma_edit_distance_bounds(b, c);
    } else if b.len() == 0 {
        lemma_edit_distance_bounds(a, c);
    } else {
        let a1 = a.drop_last();
        let b1 = b.drop_last();
        let c1 = c.drop_last();
        if edit_distance(a, b) == edit_distance(a1, b) + 1 {
            lemma_edit_distance_triangle(a1, b, c);
        } else if edit_distance(b, c) == edit_distance(b, c1) + 1 {
            lemma_edit_distance_triangle(a, b, c1);
        } else if edit_distance(a, b) == edit_distance(a, b1) + 1 {
            if edit_distance(b, c) == edit_distance(b1, c) + 1 {
                lemma_edit_distance_triangle(a, b1, c);
            } else {
                lemma_edit_distance_triangle(a, b1, c1);
            }
        } else {
            if edit_distance(b, c) == edit_distance(b1, c) + 1 {
                lemma_edit_distance_triangle(a1, b1, c);
            } else {
                lemma_edit_distance_triangle(a1, b1, c1);
            }
        }
    }
}

/// The first row and the first column of the table count the characters
/// of the other prefix.
proof fn lemma_prefix_distance_border(a: Seq<char>, b: Seq<char>, i: int, j: int)
    requires
        0 <= i <= a.len(),
        0 <= j <= b.len(),
    ensures
        prefix_distance(a, b, 0, j) == j,
        prefix_distance(a, b, i, 0) == i,
{
}

/// How a cell of the table follows from its three neighbours.
proof fn lemma_prefix_distance_step(a: Seq<char>, b: Seq<char>, i: int, j: int)
    requires
        0 <= i < a.len(),
        0 <= j < b.len(),
    ensures
        prefix_distance(a, b, i + 1, j + 1) == min3(
            prefix_distance(a, b, i, j + 1) + 1,
            prefix_distance(a, b, i + 1, j) + 1,
            prefix_distance(a, b, i, j) + substitution_cost(a[i], b[j]),
        ),
{
    assert(a.take(i + 1).drop_last() =~= a.take(i));
    assert(b.take(j + 1).drop_last() =~= b.take(j));
}

/// No cell of the table exceeds the longer of its two prefixes.
proof fn lemma_prefix_distance_bound(a: Seq<char>, b: Seq<char>, i: int, j: int)
    requires
        0 <= i <= a.len(),
        0 <= j <= b.len(),
    ensures
        prefix_distance(a, b, i, j) <= i || prefix_distance(a, b, i, j) <= j,
{
    lemma_edit_distance_bounds(a.take(i), b.take(j));
}

/// The code points of `s`, in order.
pub fn chars_of(s: &str) -> (v: Vec<char>)
    ensures
        v@ == s@,
{
    let mut v: Vec<char> = Vec::new();
    for c in it: s.chars()
        invariant
            it.seq() == s@,
            v@ == it.seq().take(it.index() as int),
    {
        v.push(c);
    }
    v
}

fn smaller(x: usize, y: usize) -> (r: usize)
    ensures
        r == if x <= y { x } else { y },
{
    if x <= y {
        x
    } else {
        y
    }
}

/// The distance between two sequences of code points, computed over one
/// rolling row of the table, which runs along `short`.
fn rolling_row_distance(long: &Vec<char>, short: &Vec<char>) -> (d: usize)
    requires
        short.len() <= long.len(),
    ensures
        d == edit_distance(long@, short@),
{
    let m: usize = long.len();
    let n: usize = short.len();
    if n == 0 {
        return m;
    }
    let mut row: Vec<usize> = Vec::new();
    row.push(0);
    let mut j: usize = 0;
    while j < n
        invariant
            j <= n,
            n == short.len(),
            row.len() == j + 1,
            forall|k: int| 0 <= k <= j ==> row[k] == prefix_distance(long@, short@, 0, k),
        decreases n - j,
    {
        proof {
            lemma_prefix_distance_border(long@, short@, 0, j + 1);
        }
        row.push(j + 1);
        j = j + 1;
    }
    let mut i: usize = 0;
    while i < m
        invariant
            i <= m,
            m == long.len(),
            n == short.len(),
            0 < n <= m,
            row.len() == n + 1,
            forall|k: int| 0 <= k <= n ==> row[k] == prefix_distance(long@, short@, i as int, k),
        decreases m - i,
    {
        let mut diag: usize = row[0];
        proof {
            lemma_prefix_distance_border(long@, short@, i + 1, 0);
        }
        row.set(0, i + 1);
        let mut j: usize = 0;
        while j < n
            invariant
                i < m,
                j <= n,
                m == long.len(),
                n == short.len(),
                0 < n <= m,
                row.len() == n + 1,
                diag == prefix_distance(long@, short@, i as int, j as int),
                forall|k: int| 0 <= k <= j ==> row[k] == prefix_distance(long@, short@, i + 1, k),
                forall|k: int| j < k <= n ==> row[k] == prefix_distance(long@, short@, i as int, k),
            decreases n - j,
        {
            let above: usize = row[j + 1];
            let left: usize = row[j];
            let cost: usize = if long[i] == short[j] {
                0
            } else {
                1
            };
            proof {
                lemma_prefix_distance_step(long@, short@, i as int, j as int);
                lemma_prefix_distance_bound(long@, short@, i as int, j + 1);
                lemma_prefix_distance_bound(long@, short@, i as int, j as int);
            }
            // Delete or insert, whichever is cheaper, or substitute. The
            // cell above and the diagonal one lie below the longer length,
            // so neither sum overflows.
            let cell: usize = smaller(smaller(above, left) + 1, diag + cost);
            row.set(j + 1, cell);
            diag = above;
            j = j + 1;
        }
        i = i + 1;
    }
    proof {
        assert(long@.take(m as int) =~= long@);
        assert(short@.take(n as int) =~= short@);
    }
    row[n]
}

/// The Levenshtein distance between two sequences of code points. The
/// rolling row always runs along the shorter of the two.
pub fn distance_of_chars(a: &Vec<char>, b: &Vec<char>) -> (d: usize)
    ensures
        d == edit_distance(a@, b@),
{
    if b.len() > a.len() {
        proof {
            lemma_edit_distance_symmetric(a@, b@);
        }
        rolling_row_distance(b, a)
    } else {
        rolling_row_distance(a, b)
    }
}

/// The Levenshtein distance between `s1` and `s2`, over their code points.
/// It never exceeds the length of the longer string.
pub fn levenshtein_distance(s1: String, s2: String) -> (d: usize)
    ensures
        d == edit_distance(s1@, s2@),
        d <= s1@.len() || d <= s2@.len(),
{
    let a: Vec<char> = chars_of(s1.as_str());
    let b: Vec<char> = chars_of(s2.as_str());
    proof {
        lemma_edit_distance_bounds(s1@, s2@);
    }
    distance_of_chars(&a, &b)
}

} // verus!
