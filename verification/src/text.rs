//! Character-sequence operations that the store's file format is built on:
//! splitting text into lines, joining lines back, and cutting a sequence at
//! the first or last occurrence of a character.

use vstd::prelude::*;

verus! {

/// The longest suffix of `s` that contains no occurrence of `c`
/// (all of `s` when `c` does not occur).
pub open spec fn suffix_after_last(s: Seq<char>, c: char) -> Seq<char>
    decreases s.len(),
{
    if s.len() == 0 {
        Seq::empty()
    } else if s.last() == c {
        Seq::empty()
    } else {
        suffix_after_last(s.drop_last(), c).push(s.last())
    }
}

/// The prefix of `s` before the first occurrence of `c` (all of `s` if none).
pub open spec fn prefix_before_first(s: Seq<char>, c: char) -> Seq<char>
    decreases s.len(),
{
    if s.len() == 0 {
        Seq::empty()
    } else if s.first() == c {
        Seq::empty()
    } else {
        seq![s.first()] + prefix_before_first(s.drop_first(), c)
    }
}

/// The suffix of `s` after the first occurrence of `c` (empty if none).
pub open spec fn suffix_after_first(s: Seq<char>, c: char) -> Seq<char>
    decreases s.len(),
{
    if s.len() == 0 {
        Seq::empty()
    } else if s.first() == c {
        s.drop_first()
    } else {
        suffix_after_first(s.drop_first(), c)
    }
}

/// The lines of `s`: the segments between newline characters, the way a
/// buffered line reader yields them (a final segment without a trailing
/// newline is a line; a trailing newline adds no empty line).
pub open spec fn split_lines(s: Seq<char>) -> Seq<Seq<char>>
    decreases s.len(),
{
    if s.len() == 0 {
        Seq::empty()
    } else if s.first() == '\n' {
        seq![Seq::<char>::empty()] + split_lines(s.drop_first())
    } else {
        let rest = split_lines(s.drop_first());
        if rest.len() == 0 {
            seq![seq![s.first()]]
        } else {
            seq![seq![s.first()] + rest.first()] + rest.drop_first()
        }
    }
}

/// The lines joined with a newline between each pair, with no trailing
/// newline.
pub open spec fn join_lines(lines: Seq<Seq<char>>) -> Seq<char>
    decreases lines.len(),
{
    if lines.len() == 0 {
        Seq::empty()
    } else if lines.len() == 1 {
        lines.first()
    } else {
        lines.first() + seq!['\n'] + join_lines(lines.drop_first())
    }
}

/// A character occurs in a concatenation exactly when it occurs in one of
/// the parts.
pub proof fn lemma_contains_concat(a: Seq<char>, b: Seq<char>, c: char)
    ensures
        (a + b).contains(c) <==> (a.contains(c) || b.contains(c)),
{
    if (a + b).contains(c) {
        let i = choose|i: int| 0 <= i < (a + b).len() && (a + b)[i] == c;
        if i < a.len() {
            assert(a[i] == c);
        } else {
            assert(b[i - a.len()] == c);
        }
    }
    if a.contains(c) {
        let i = choose|i: int| 0 <= i < a.len() && a[i] == c;
        assert((a + b)[i] == c);
    }
    if b.contains(c) {
        let i = choose|i: int| 0 <= i < b.len() && b[i] == c;
        assert((a + b)[a.len() + i] == c);
    }
}

/// Cutting at the last occurrence of `c`: after anything that ends with `c`,
/// a `c`-free tail is exactly what `suffix_after_last` yields.
pub proof fn lemma_suffix_after_last_concat(a: Seq<char>, b: Seq<char>, c: char)
    requires
        !b.contains(c),
    ensures
        suffix_after_last(a.push(c) + b, c) == b,
    decreases b.len(),
{
    if b.len() == 0 {
        assert(a.push(c) + b =~= a.push(c));
        assert(suffix_after_last(a.push(c), c) == Seq::<char>::empty());
    } else {
        let s = a.push(c) + b;
        assert(s.last() == b.last());
        assert(b.last() != c) by {
            assert(b[b.len() - 1] == b.last());
        }
        assert(!b.drop_last().contains(c)) by {
            if b.drop_last().contains(c) {
                let i = choose|i: int| 0 <= i < b.drop_last().len() && b.drop_last()[i] == c;
                assert(b[i] == c);
            }
        }
        assert(s.drop_last() =~= a.push(c) + b.drop_last());
        lemma_suffix_after_last_concat(a, b.drop_last(), c);
        assert(suffix_after_last(s, c) =~= b.drop_last().push(b.last()));
        assert(b.drop_last().push(b.last()) =~= b);
    }
}

/// When `c` does not occur at all, `suffix_after_last` is the whole sequence.
pub proof fn lemma_suffix_after_last_absent(s: Seq<char>, c: char)
    requires
        !s.contains(c),
    ensures
        suffix_after_last(s, c) == s,
    decreases s.len(),
{
    if s.len() == 0 {
        assert(suffix_after_last(s, c) =~= s);
    } else {
        assert(s.last() != c) by {
            assert(s[s.len() - 1] == s.last());
        }
        assert(!s.drop_last().contains(c)) by {
            if s.drop_last().contains(c) {
                let i = choose|i: int| 0 <= i < s.drop_last().len() && s.drop_last()[i] == c;
                assert(s[i] == c);
            }
        }
        lemma_suffix_after_last_absent(s.drop_last(), c);
        assert(s.drop_last().push(s.last()) =~= s);
    }
}

/// Index form of `suffix_after_last`: if position `k` holds the last
/// occurrence of `c`, the suffix after it is what the function yields.
pub proof fn lemma_suffix_after_last_index(s: Seq<char>, c: char, k: int)
    requires
        0 <= k < s.len(),
        s[k] == c,
        forall|m: int| k < m < s.len() ==> s[m] != c,
    ensures
        suffix_after_last(s, c) == s.subrange(k + 1, s.len() as int),
    decreases s.len(),
{
    if k == s.len() - 1 {
        assert(s.last() == c);
        assert(suffix_after_last(s, c) =~= s.subrange(k + 1, s.len() as int));
    } else {
        assert(s.last() != c);
        lemma_suffix_after_last_index(s.drop_last(), c, k);
        assert(s.drop_last().subrange(k + 1, s.len() - 1).push(s.last()) =~= s.subrange(
            k + 1,
            s.len() as int,
        ));
    }
}

/// Index form of the first-occurrence cut: if position `k` holds the first
/// occurrence of `c`, the parts before and after it are what the two
/// functions yield.
pub proof fn lemma_first_occurrence_index(s: Seq<char>, c: char, k: int)
    requires
        0 <= k < s.len(),
        s[k] == c,
        forall|m: int| 0 <= m < k ==> s[m] != c,
    ensures
        s.contains(c),
        prefix_before_first(s, c) == s.subrange(0, k),
        suffix_after_first(s, c) == s.subrange(k + 1, s.len() as int),
    decreases k,
{
    if k == 0 {
        assert(s.first() == c);
        assert(prefix_before_first(s, c) =~= s.subrange(0, 0));
        assert(s.drop_first() =~= s.subrange(1, s.len() as int));
    } else {
        assert(s.first() != c);
        assert(s.drop_first()[k - 1] == c);
        lemma_first_occurrence_index(s.drop_first(), c, k - 1);
        assert(seq![s.first()] + s.drop_first().subrange(0, k - 1) =~= s.subrange(0, k));
        assert(s.drop_first().subrange(k - 1 + 1, s.drop_first().len() as int) =~= s.subrange(
            k + 1,
            s.len() as int,
        ));
    }
}

/// Splitting off a first newline-free line: the lines of
/// `line + '\n' + rest` are `line` followed by the lines of `rest`.
pub proof fn lemma_split_lines_step(line: Seq<char>, rest: Seq<char>)
    requires
        !line.contains('\n'),
    ensures
        split_lines(line + seq!['\n'] + rest) == seq![line] + split_lines(rest),
    decreases line.len(),
{
    let s = line + seq!['\n'] + rest;
    if line.len() == 0 {
        assert(s =~= seq!['\n'] + rest);
        assert(s.first() == '\n');
        assert(s.drop_first() =~= rest);
        assert(line =~= Seq::<char>::empty());
    } else {
        assert(s.first() == line.first());
        assert(line.first() != '\n') by {
            assert(line[0] == line.first());
        }
        assert(!line.drop_first().contains('\n')) by {
            if line.drop_first().contains('\n') {
                let i = choose|i: int|
                    0 <= i < line.drop_first().len() && line.drop_first()[i] == '\n';
                assert(line[i + 1] == '\n');
            }
        }
        lemma_split_lines_step(line.drop_first(), rest);
        assert(s.drop_first() =~= line.drop_first() + seq!['\n'] + rest);
        let inner = seq![line.drop_first()] + split_lines(rest);
        assert(split_lines(s.drop_first()) == inner);
        assert(inner.len() >= 1);
        assert(inner.first() == line.drop_first());
        assert(seq![s.first()] + inner.first() =~= line);
        assert(seq![seq![s.first()] + inner.first()] + inner.drop_first() =~= seq![line]
            + split_lines(rest));
    }
}

/// A nonempty text without a newline is a single line.
pub proof fn lemma_split_lines_single(s: Seq<char>)
    requires
        s.len() > 0,
        !s.contains('\n'),
    ensures
        split_lines(s) == seq![s],
    decreases s.len(),
{
    assert(s.first() != '\n') by {
        assert(s[0] == s.first());
    }
    assert(!s.drop_first().contains('\n')) by {
        if s.drop_first().contains('\n') {
            let i = choose|i: int| 0 <= i < s.drop_first().len() && s.drop_first()[i] == '\n';
            assert(s[i + 1] == '\n');
        }
    }
    if s.len() == 1 {
        assert(split_lines(s.drop_first()) =~= Seq::<Seq<char>>::empty());
        assert(seq![s.first()] =~= s);
        assert(split_lines(s) =~= seq![s]);
    } else {
        lemma_split_lines_single(s.drop_first());
        let rest = split_lines(s.drop_first());
        assert(rest == seq![s.drop_first()]);
        assert(seq![s.first()] + s.drop_first() =~= s);
        assert(seq![seq![s.first()] + rest.first()] + rest.drop_first() =~= seq![s]);
    }
}

/// A nonempty text has at least one line.
pub proof fn lemma_split_lines_nonempty(s: Seq<char>)
    requires
        s.len() > 0,
    ensures
        split_lines(s).len() > 0,
{
}

/// Every line produced by `split_lines` is newline-free.
pub proof fn lemma_split_lines_no_newline(s: Seq<char>)
    ensures
        forall|i: int|
            0 <= i < split_lines(s).len() ==> !(#[trigger] split_lines(s)[i]).contains('\n'),
    decreases s.len(),
{
    let ls = split_lines(s);
    if s.len() == 0 {
    } else if s.first() == '\n' {
        lemma_split_lines_no_newline(s.drop_first());
        assert(!ls[0].contains('\n'));
        assert forall|i: int| 1 <= i < ls.len() implies !(#[trigger] ls[i]).contains('\n') by {
            assert(ls[i] == split_lines(s.drop_first())[i - 1]);
        }
    } else {
        lemma_split_lines_no_newline(s.drop_first());
        let rest = split_lines(s.drop_first());
        if rest.len() == 0 {
            assert(!ls[0].contains('\n')) by {
                if ls[0].contains('\n') {
                    let i = choose|i: int| 0 <= i < ls[0].len() && ls[0][i] == '\n';
                    assert(ls[0][i] == s.first());
                }
            }
        } else {
            assert(!rest.first().contains('\n')) by {
                assert(rest[0] == rest.first());
            }
            assert(!ls[0].contains('\n')) by {
                lemma_contains_concat(seq![s.first()], rest.first(), '\n');
                if seq![s.first()].contains('\n') {
                    let i = choose|i: int|
                        0 <= i < seq![s.first()].len() && seq![s.first()][i] == '\n';
                    assert(seq![s.first()][i] == s.first());
                }
            }
            assert forall|i: int| 1 <= i < ls.len() implies !(#[trigger] ls[i]).contains('\n') by {
                assert(ls[i] == rest.drop_first()[i - 1]);
                assert(rest.drop_first()[i - 1] == rest[i]);
            }
        }
    }
}

/// Splitting distributes over a concatenation whose first part ends with a
/// newline.
pub proof fn lemma_split_lines_append(a: Seq<char>, b: Seq<char>)
    requires
        a.len() > 0,
        a.last() == '\n',
    ensures
        split_lines(a + b) == split_lines(a) + split_lines(b),
    decreases a.len(),
{
    let s = a + b;
    if a.len() == 1 {
        assert(s.first() == '\n');
        assert(s.drop_first() =~= b);
        assert(split_lines(a) =~= seq![Seq::<char>::empty()]);
        assert(split_lines(s) =~= split_lines(a) + split_lines(b));
    } else if a.first() == '\n' {
        assert(s.first() == '\n');
        assert(a.drop_first().len() > 0);
        assert(a.drop_first().last() == a.last());
        lemma_split_lines_append(a.drop_first(), b);
        assert(s.drop_first() =~= a.drop_first() + b);
        assert(seq![Seq::<char>::empty()] + (split_lines(a.drop_first()) + split_lines(b)) =~= (
        seq![Seq::<char>::empty()] + split_lines(a.drop_first())) + split_lines(b));
    } else {
        assert(s.first() == a.first());
        assert(s.first() != '\n');
        assert(a.drop_first().len() > 0);
        assert(a.drop_first().last() == a.last());
        lemma_split_lines_append(a.drop_first(), b);
        assert(s.drop_first() =~= a.drop_first() + b);
        let sa = split_lines(a.drop_first());
        lemma_split_lines_nonempty(a.drop_first());
        let rest = split_lines(s.drop_first());
        assert(rest == sa + split_lines(b));
        assert(rest.len() > 0);
        assert(rest.first() == sa.first());
        assert(rest.drop_first() =~= sa.drop_first() + split_lines(b));
        assert(seq![seq![s.first()] + rest.first()] + rest.drop_first() =~= (seq![
            seq![a.first()] + sa.first(),
        ] + sa.drop_first()) + split_lines(b));
    }
}

/// Joining then splitting gives the lines back, provided each line is
/// nonempty and newline-free.
pub proof fn lemma_split_join(lines: Seq<Seq<char>>)
    requires
        forall|i: int| 0 <= i < lines.len() ==> (#[trigger] lines[i]).len() > 0,
        forall|i: int| 0 <= i < lines.len() ==> !(#[trigger] lines[i]).contains('\n'),
    ensures
        split_lines(join_lines(lines)) == lines,
    decreases lines.len(),
{
    if lines.len() == 0 {
        assert(split_lines(join_lines(lines)) =~= lines);
    } else if lines.len() == 1 {
        lemma_split_lines_single(lines.first());
        assert(seq![lines.first()] =~= lines);
    } else {
        lemma_split_join(lines.drop_first());
        lemma_split_lines_step(lines.first(), join_lines(lines.drop_first()));
        assert(lines.first() + seq!['\n'] + join_lines(lines.drop_first()) =~= join_lines(lines));
        assert(seq![lines.first()] + lines.drop_first() =~= lines);
    }
}

/// Appending one more line to a join puts a newline before it, unless the
/// join was empty so far.
pub proof fn lemma_join_lines_push(lines: Seq<Seq<char>>, l: Seq<char>)
    ensures
        join_lines(lines.push(l)) == if lines.len() == 0 {
            l
        } else {
            join_lines(lines) + seq!['\n'] + l
        },
    decreases lines.len(),
{
    if lines.len() == 0 {
        assert(lines.push(l).len() == 1);
        assert(lines.push(l).first() == l);
    } else {
        lemma_join_lines_push(lines.drop_first(), l);
        assert(lines.push(l).first() == lines.first());
        assert(lines.push(l).drop_first() =~= lines.drop_first().push(l));
        if lines.len() == 1 {
            assert(join_lines(lines) == lines.first());
        } else {
            assert(lines.first() + seq!['\n'] + (join_lines(lines.drop_first()) + seq!['\n'] + l)
                =~= (lines.first() + seq!['\n'] + join_lines(lines.drop_first())) + seq!['\n'] + l);
        }
    }
}

/// Splits a text into its lines.
pub fn split_lines_str(s: &str) -> (r: Vec<String>)
    ensures
        r.deep_view() == split_lines(s@),
{
    let n = s.unicode_len();
    let mut done: Vec<String> = Vec::new();
    let mut start: usize = 0;
    let mut i: usize = 0;
    proof {
        assert(s@.subrange(0, n as int) =~= s@);
        assert(done.deep_view() + split_lines(s@) =~= split_lines(s@));
    }
    while i < n
        invariant
            n == s@.len(),
            start <= i <= n,
            forall|m: int| start <= m < i ==> s@[m] != '\n',
            split_lines(s@) == done.deep_view() + split_lines(s@.subrange(start as int, n as int)),
        decreases n - i,
    {
        let c = s.get_char(i);
        if c == '\n' {
            let line = s.substring_char(start, i);
            proof {
                assert(!line@.contains('\n')) by {
                    if line@.contains('\n') {
                        let m = choose|m: int| 0 <= m < line@.len() && line@[m] == '\n';
                        assert(s@[start + m] == '\n');
                    }
                }
                lemma_split_lines_step(line@, s@.subrange(i + 1, n as int));
                assert(line@ + seq!['\n'] + s@.subrange(i + 1, n as int) =~= s@.subrange(
                    start as int,
                    n as int,
                ));
            }
            let owned = String::from_str(line);
            let ghost prev = done.deep_view();
            done.push(owned);
            proof {
                assert(done.deep_view() =~= prev.push(line@));
                assert(prev.push(line@) + split_lines(s@.subrange(i + 1, n as int)) =~= prev + (
                seq![line@] + split_lines(s@.subrange(i + 1, n as int))));
            }
            start = i + 1;
        }
        i = i + 1;
    }
    if start < n {
        let line = s.substring_char(start, n);
        proof {
            assert(!line@.contains('\n')) by {
                if line@.contains('\n') {
                    let m = choose|m: int| 0 <= m < line@.len() && line@[m] == '\n';
                    assert(s@[start + m] == '\n');
                }
            }
            lemma_split_lines_single(line@);
        }
        let owned = String::from_str(line);
        let ghost prev = done.deep_view();
        done.push(owned);
        proof {
            assert(done.deep_view() =~= prev.push(line@));
            assert(prev.push(line@) =~= prev + seq![line@]);
        }
    } else {
        proof {
            assert(s@.subrange(start as int, n as int) =~= Seq::<char>::empty());
            assert(done.deep_view() + split_lines(s@.subrange(start as int, n as int))
                =~= done.deep_view());
        }
    }
    done
}

/// Joins lines with a newline between each pair, with no trailing newline.
pub fn join_lines_vec(lines: &Vec<String>) -> (r: String)
    ensures
        r@ == join_lines(lines.deep_view()),
{
    let mut out = String::new();
    let n = lines.len();
    let mut i: usize = 0;
    while i < n
        invariant
            n == lines.deep_view().len(),
            i <= n,
            out@ == join_lines(lines.deep_view().subrange(0, i as int)),
        decreases n - i,
    {
        proof {
            lemma_join_lines_push(lines.deep_view().subrange(0, i as int), lines.deep_view()[
                i as int
            ]);
            assert(lines.deep_view().subrange(0, i as int).push(lines.deep_view()[i as int])
                =~= lines.deep_view().subrange(0, i + 1));
        }
        if i > 0 {
            out.append("\n");
            proof {
                reveal_strlit("\n");
                assert("\n"@ =~= seq!['\n']);
            }
        }
        let line: &String = &lines[i];
        out.append(line.as_str());
        i = i + 1;
    }
    proof {
        assert(lines.deep_view().subrange(0, n as int) =~= lines.deep_view());
    }
    out
}

/// Whether two texts hold the same characters.
pub fn str_eq(a: &str, b: &str) -> (r: bool)
    ensures
        r == (a@ == b@),
{
    let na = a.unicode_len();
    let nb = b.unicode_len();
    if na != nb {
        return false;
    }
    let mut i: usize = 0;
    while i < na
        invariant
            na == a@.len(),
            na == b@.len(),
            i <= na,
            forall|m: int| 0 <= m < i ==> a@[m] == b@[m],
        decreases na - i,
    {
        if a.get_char(i) != b.get_char(i) {
            return false;
        }
        i = i + 1;
    }
    proof {
        assert(a@ =~= b@);
    }
    true
}

/// `p` occurs in `s` at position `i`.
pub open spec fn match_at(s: Seq<char>, p: Seq<char>, i: int) -> bool {
    0 <= i && i + p.len() <= s.len() && s.subrange(i, i + p.len() as int) == p
}

/// The position of the first occurrence of `p` in `s`, if any.
pub open spec fn find_pat(s: Seq<char>, p: Seq<char>) -> Option<int>
    decreases s.len(),
{
    if p.len() > s.len() {
        None
    } else if s.subrange(0, p.len() as int) == p {
        Some(0)
    } else if s.len() == 0 {
        None
    } else {
        match find_pat(s.drop_first(), p) {
            Some(i) => Some(i + 1),
            None => None,
        }
    }
}

/// `find_pat` finds the leftmost occurrence, and finds one whenever one
/// exists.
pub proof fn lemma_find_pat_ensures(s: Seq<char>, p: Seq<char>)
    ensures
        match find_pat(s, p) {
            Some(i) => match_at(s, p, i) && (forall|j: int| 0 <= j < i ==> !match_at(s, p, j)),
            None => forall|j: int| !match_at(s, p, j),
        },
    decreases s.len(),
{
    if p.len() > s.len() {
    } else if s.subrange(0, p.len() as int) == p {
        assert(match_at(s, p, 0));
    } else if s.len() == 0 {
        assert(s.subrange(0, p.len() as int) =~= p);
        assert(false);
    } else {
        lemma_find_pat_ensures(s.drop_first(), p);
        assert forall|j: int| 1 <= j implies (match_at(s, p, j) <==> match_at(
            s.drop_first(),
            p,
            j - 1,
        )) by {
            if match_at(s, p, j) {
                assert(s.drop_first().subrange(j - 1, j - 1 + p.len() as int) =~= s.subrange(
                    j,
                    j + p.len() as int,
                ));
            }
            if match_at(s.drop_first(), p, j - 1) {
                assert(s.subrange(j, j + p.len() as int) =~= s.drop_first().subrange(
                    j - 1,
                    j - 1 + p.len() as int,
                ));
            }
        }
        assert(!match_at(s, p, 0));
        match find_pat(s.drop_first(), p) {
            Some(i) => {
                assert(find_pat(s, p) == Some(i + 1));
                assert(match_at(s, p, i + 1));
            },
            None => {
                assert(find_pat(s, p) is None);
            },
        }
    }
}

/// The text with every occurrence of `p` replaced by `t`, scanning from the
/// left and never rescanning inserted text, the way `str::replace` does.
pub open spec fn replace_all(s: Seq<char>, p: Seq<char>, t: Seq<char>) -> Seq<char>
    decreases s.len(),
    when p.len() > 0
    via check_replace_all_decreases
{
    match find_pat(s, p) {
        None => s,
        Some(i) => s.subrange(0, i) + t + replace_all(
            s.subrange(i + p.len() as int, s.len() as int),
            p,
            t,
        ),
    }
}

#[via_fn]
proof fn check_replace_all_decreases(s: Seq<char>, p: Seq<char>, t: Seq<char>) {
    lemma_find_pat_ensures(s, p);
}

/// Whether `p` occurs in `s` at position `i`.
fn match_at_exec(s: &str, p: &str, i: usize) -> (r: bool)
    requires
        i + p@.len() <= s@.len(),
        s@.len() <= usize::MAX,
    ensures
        r == match_at(s@, p@, i as int),
{
    let plen = p.unicode_len();
    let mut k: usize = 0;
    while k < plen
        invariant
            plen == p@.len(),
            i + plen <= s@.len(),
            s@.len() <= usize::MAX,
            k <= plen,
            forall|m: int| 0 <= m < k ==> s@[i + m] == p@[m],
        decreases plen - k,
    {
        if s.get_char(i + k) != p.get_char(k) {
            proof {
                assert(!match_at(s@, p@, i as int)) by {
                    if match_at(s@, p@, i as int) {
                        assert(s@.subrange(i as int, i + plen)[k as int] == p@[k as int]);
                        assert(s@.subrange(i as int, i + plen)[k as int] == s@[i + k]);
                    }
                }
            }
            return false;
        }
        k = k + 1;
    }
    proof {
        assert(s@.subrange(i as int, i + plen) =~= p@);
    }
    true
}

/// The smallest position at or after `from` where `p` occurs in `s`, if any.
fn find_match_from(s: &str, p: &str, from: usize) -> (r: Option<usize>)
    requires
        from <= s@.len(),
        p@.len() > 0,
    ensures
        match r {
            Some(j) => from <= j && match_at(s@, p@, j as int) && (forall|m: int|
                from <= m < j ==> !match_at(s@, p@, m)),
            None => forall|m: int| from <= m ==> !match_at(s@, p@, m),
        },
{
    let n = s.unicode_len();
    let plen = p.unicode_len();
    if plen > n || from > n - plen {
        return None;
    }
    let mut j: usize = from;
    while j <= n - plen
        invariant
            n == s@.len(),
            plen == p@.len(),
            plen > 0,
            plen <= n,
            from <= j <= n - plen + 1,
            forall|m: int| from <= m < j ==> !match_at(s@, p@, m),
        decreases n - j,
    {
        if match_at_exec(s, p, j) {
            return Some(j);
        }
        j = j + 1;
    }
    None
}

/// The text with every occurrence of `p` replaced by `t`.
pub fn replace_all_str(s: &str, p: &str, t: &str) -> (r: String)
    requires
        p@.len() > 0,
    ensures
        r@ == replace_all(s@, p@, t@),
{
    let n = s.unicode_len();
    let plen = p.unicode_len();
    let mut out = String::new();
    let mut i: usize = 0;
    proof {
        assert(s@.subrange(0, n as int) =~= s@);
        assert(out@ + replace_all(s@, p@, t@) =~= replace_all(s@, p@, t@));
    }
    loop
        invariant
            n == s@.len(),
            plen == p@.len(),
            plen > 0,
            i <= n,
            replace_all(s@, p@, t@) == out@ + replace_all(
                s@.subrange(i as int, n as int),
                p@,
                t@,
            ),
        decreases n - i,
    {
        let ghost suf = s@.subrange(i as int, n as int);
        match find_match_from(s, p, i) {
            None => {
                let tail = s.substring_char(i, n);
                out.append(tail);
                proof {
                    lemma_find_pat_ensures(suf, p@);
                    match find_pat(suf, p@) {
                        Some(m) => {
                            assert(match_at(suf, p@, m));
                            assert(s@.subrange(i + m, i + m + plen) =~= suf.subrange(
                                m,
                                m + plen,
                            ));
                            assert(match_at(s@, p@, i + m));
                            assert(false);
                        },
                        None => {},
                    }
                    assert(replace_all(suf, p@, t@) == suf);
                }
                return out;
            },
            Some(j) => {
                let pre = s.substring_char(i, j);
                out.append(pre);
                out.append(t);
                proof {
                    lemma_find_pat_ensures(suf, p@);
                    assert(suf.subrange(j - i, j - i + plen) =~= s@.subrange(
                        j as int,
                        j + plen,
                    ));
                    assert(match_at(suf, p@, j - i));
                    match find_pat(suf, p@) {
                        None => {
                            assert(false);
                        },
                        Some(m) => {
                            assert(match_at(suf, p@, m));
                            assert(s@.subrange(i + m, i + m + plen) =~= suf.subrange(
                                m,
                                m + plen,
                            ));
                            assert(match_at(s@, p@, i + m));
                            assert(m == j - i);
                            assert(replace_all(suf, p@, t@) == suf.subrange(0, m) + t@
                                + replace_all(suf.subrange(m + plen, suf.len() as int), p@, t@));
                            assert(suf.subrange(0, m) =~= s@.subrange(i as int, j as int));
                            assert(suf.subrange(m + plen, suf.len() as int) =~= s@.subrange(
                                j + plen,
                                n as int,
                            ));
                            assert(out@ + replace_all(s@.subrange(j + plen, n as int), p@, t@)
                                =~= replace_all(s@, p@, t@));
                        },
                    }
                }
                i = j + plen;
            },
        }
    }
}

} // verus!
