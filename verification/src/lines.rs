//! The store file format: one `export NAME=VALUE` line per variable.
//!
//! A line is read by taking the part after its last space and cutting that
//! part at its first `=`; the lines of a file are read in order, a later
//! assignment to a name overriding an earlier one.

use vstd::prelude::*;

use crate::text::{
    lemma_contains_concat, lemma_first_occurrence_index, lemma_split_lines_append,
    lemma_split_lines_step, lemma_suffix_after_last_absent, lemma_suffix_after_last_concat,
    lemma_suffix_after_last_index, prefix_before_first, split_lines, suffix_after_first,
    suffix_after_last,
};

verus! {

/// The fixed text that opens every line of the store file.
pub open spec fn export_prefix() -> Seq<char> {
    "export "@
}

/// The store line that records the assignment of `v` to `k`.
pub open spec fn line_for(k: Seq<char>, v: Seq<char>) -> Seq<char> {
    export_prefix() + k + "="@ + v
}

/// The assignment text `NAME=VALUE`, the part of a store line after the
/// `export ` opener. `edit` replaces this text inside the file.
pub open spec fn assign_of(k: Seq<char>, v: Seq<char>) -> Seq<char> {
    k + "="@ + v
}

/// The lines with every line equal to `target` dropped, in order.
pub open spec fn drop_lines(lines: Seq<Seq<char>>, target: Seq<char>) -> Seq<Seq<char>>
    decreases lines.len(),
{
    if lines.len() == 0 {
        Seq::empty()
    } else if lines.last() == target {
        drop_lines(lines.drop_last(), target)
    } else {
        drop_lines(lines.drop_last(), target).push(lines.last())
    }
}

/// Every kept line differs from the dropped one and stood in the original
/// lines.
pub proof fn lemma_drop_lines_props(lines: Seq<Seq<char>>, target: Seq<char>)
    ensures
        forall|i: int|
            0 <= i < drop_lines(lines, target).len() ==> (#[trigger] drop_lines(lines, target)[i])
                != target,
        forall|i: int|
            0 <= i < drop_lines(lines, target).len() ==> lines.contains(
                drop_lines(lines, target)[i],
            ),
    decreases lines.len(),
{
    if lines.len() > 0 {
        lemma_drop_lines_props(lines.drop_last(), target);
        let kept = drop_lines(lines, target);
        let inner = drop_lines(lines.drop_last(), target);
        assert forall|i: int| 0 <= i < kept.len() implies (#[trigger] kept[i]) != target
            && lines.contains(kept[i]) by {
            if lines.last() == target || i < inner.len() {
                assert(kept[i] == inner[i]);
                assert(lines.drop_last().contains(inner[i]));
                let w = choose|w: int|
                    0 <= w < lines.drop_last().len() && lines.drop_last()[w] == inner[i];
                assert(lines[w] == inner[i]);
            } else {
                assert(kept[i] == lines.last());
                assert(lines[lines.len() - 1] == lines.last());
            }
        }
    }
}

/// The (name, value) pair a store line records: the part after the line's
/// last space, cut at its first `=`. A line whose assignment part has no `=`
/// is malformed.
pub open spec fn parse_line(l: Seq<char>) -> Option<(Seq<char>, Seq<char>)> {
    let a = suffix_after_last(l, ' ');
    if a.contains('=') {
        Some((prefix_before_first(a, '='), suffix_after_first(a, '=')))
    } else {
        None
    }
}

/// Every line parses.
pub open spec fn lines_ok(lines: Seq<Seq<char>>) -> bool {
    forall|i: int| 0 <= i < lines.len() ==> (#[trigger] parse_line(lines[i])) is Some
}

/// The mapping the lines describe, a later line overriding an earlier one
/// with the same name. Malformed lines contribute nothing (an operation on a
/// store with such a line fails instead).
pub open spec fn map_of_lines(lines: Seq<Seq<char>>) -> Map<Seq<char>, Seq<char>>
    decreases lines.len(),
{
    if lines.len() == 0 {
        Map::<Seq<char>, Seq<char>>::empty()
    } else {
        let m = map_of_lines(lines.drop_last());
        match parse_line(lines.last()) {
            Some(kv) => m.insert(kv.0, kv.1),
            None => m,
        }
    }
}

/// A name that a store line can carry faithfully: no space, no `=`, no
/// newline.
pub open spec fn storable_key(k: Seq<char>) -> bool {
    !k.contains(' ') && !k.contains('=') && !k.contains('\n')
}

/// A value that a store line can carry faithfully: no space, no newline (an
/// embedded `=` is fine, since a line is cut at its first `=` only).
pub open spec fn storable_value(v: Seq<char>) -> bool {
    !v.contains(' ') && !v.contains('\n')
}

/// Every pair of the sequence is storable.
pub open spec fn storable_pairs(ps: Seq<(Seq<char>, Seq<char>)>) -> bool {
    forall|i: int|
        0 <= i < ps.len() ==> storable_key((#[trigger] ps[i]).0) && storable_value(ps[i].1)
}

/// The store lines for a sequence of pairs, in order.
pub open spec fn lines_for(ps: Seq<(Seq<char>, Seq<char>)>) -> Seq<Seq<char>> {
    ps.map_values(|p: (Seq<char>, Seq<char>)| line_for(p.0, p.1))
}

/// The text of a freshly written store file: one line per pair, each with a
/// trailing newline.
pub open spec fn render_lines(ps: Seq<(Seq<char>, Seq<char>)>) -> Seq<char>
    decreases ps.len(),
{
    if ps.len() == 0 {
        Seq::empty()
    } else {
        line_for(ps.first().0, ps.first().1) + seq!['\n'] + render_lines(ps.drop_first())
    }
}

/// A freshly rendered store file is empty or ends with a newline, so a
/// later set appends its line whole.
pub proof fn lemma_render_lines_newline_terminated(ps: Seq<(Seq<char>, Seq<char>)>)
    ensures
        render_lines(ps).len() == 0 || render_lines(ps).last() == '\n',
    decreases ps.len(),
{
    if ps.len() > 0 {
        lemma_render_lines_newline_terminated(ps.drop_first());
        let head = line_for(ps.first().0, ps.first().1) + seq!['\n'];
        let rest = render_lines(ps.drop_first());
        assert(render_lines(ps) == head + rest);
        if rest.len() == 0 {
            assert(render_lines(ps) =~= head);
            assert(head.last() == '\n');
        } else {
            assert((head + rest).last() == rest.last());
        }
    }
}

/// The mapping described by a sequence of pairs, a later pair overriding an
/// earlier one with the same name.
pub open spec fn map_of_pairs(ps: Seq<(Seq<char>, Seq<char>)>) -> Map<Seq<char>, Seq<char>>
    decreases ps.len(),
{
    if ps.len() == 0 {
        Map::<Seq<char>, Seq<char>>::empty()
    } else {
        map_of_pairs(ps.drop_last()).insert(ps.last().0, ps.last().1)
    }
}

/// A rendered line parses back to the pair it was rendered from, and is a
/// nonempty, newline-free line.
pub proof fn lemma_line_for_parses(k: Seq<char>, v: Seq<char>)
    requires
        storable_key(k),
        storable_value(v),
    ensures
        parse_line(line_for(k, v)) == Some((k, v)),
        !line_for(k, v).contains('\n'),
        line_for(k, v).len() > 0,
{
    reveal_strlit("export ");
    reveal_strlit("=");
    let line = line_for(k, v);
    let head = "export "@.subrange(0, 6);
    assert("export "@ =~= head.push(' '));
    assert("="@ =~= seq!['=']);
    let b = k + "="@ + v;
    assert(!"="@.contains(' ')) by {
        if "="@.contains(' ') {
            let i = choose|i: int| 0 <= i < "="@.len() && "="@[i] == ' ';
            assert("="@[i] == '=');
        }
    }
    assert(!b.contains(' ')) by {
        lemma_contains_concat(k + "="@, v, ' ');
        lemma_contains_concat(k, "="@, ' ');
    }
    assert(line =~= head.push(' ') + b);
    lemma_suffix_after_last_concat(head, b, ' ');
    assert(suffix_after_last(line, ' ') == b);
    assert(b =~= k + seq!['='] + v);
    assert(b[k.len() as int] == '=');
    assert(forall|m: int| 0 <= m < k.len() ==> b[m] == k[m]);
    assert(forall|m: int| 0 <= m < k.len() ==> b[m] != '=');
    lemma_first_occurrence_index(b, '=', k.len() as int);
    assert(prefix_before_first(b, '=') =~= k);
    assert(suffix_after_first(b, '=') =~= v);
    assert(!line.contains('\n')) by {
        lemma_contains_concat(export_prefix() + k + "="@, v, '\n');
        lemma_contains_concat(export_prefix() + k, "="@, '\n');
        lemma_contains_concat(export_prefix(), k, '\n');
        if export_prefix().contains('\n') {
            let i = choose|i: int| 0 <= i < "export "@.len() && "export "@[i] == '\n';
        }
        if "="@.contains('\n') {
            let i = choose|i: int| 0 <= i < "="@.len() && "="@[i] == '\n';
            assert("="@[i] == '=');
        }
    }
}

/// A freshly rendered store file splits back into exactly the rendered
/// lines.
pub proof fn lemma_render_lines_split(ps: Seq<(Seq<char>, Seq<char>)>)
    requires
        storable_pairs(ps),
    ensures
        split_lines(render_lines(ps)) == lines_for(ps),
    decreases ps.len(),
{
    if ps.len() == 0 {
        assert(split_lines(render_lines(ps)) =~= lines_for(ps));
    } else {
        let line = line_for(ps.first().0, ps.first().1);
        assert(storable_key(ps[0].0) && storable_value(ps[0].1));
        lemma_line_for_parses(ps.first().0, ps.first().1);
        assert(storable_pairs(ps.drop_first())) by {
            assert(forall|i: int|
                0 <= i < ps.drop_first().len() ==> #[trigger] ps.drop_first()[i] == ps[i + 1]);
        }
        lemma_render_lines_split(ps.drop_first());
        lemma_split_lines_step(line, render_lines(ps.drop_first()));
        assert(seq![line] + lines_for(ps.drop_first()) =~= lines_for(ps));
    }
}

/// Lines rendered from pairs parse, and describe the pairs' own mapping.
pub proof fn lemma_map_of_rendered(ps: Seq<(Seq<char>, Seq<char>)>)
    requires
        storable_pairs(ps),
    ensures
        lines_ok(lines_for(ps)),
        map_of_lines(lines_for(ps)) == map_of_pairs(ps),
    decreases ps.len(),
{
    let ls = lines_for(ps);
    assert forall|i: int| 0 <= i < ls.len() implies (#[trigger] parse_line(ls[i])) is Some by {
        lemma_line_for_parses(ps[i].0, ps[i].1);
    }
    if ps.len() == 0 {
    } else {
        assert(storable_pairs(ps.drop_last())) by {
            assert(forall|i: int|
                0 <= i < ps.drop_last().len() ==> #[trigger] ps.drop_last()[i] == ps[i]);
        }
        lemma_map_of_rendered(ps.drop_last());
        assert(ls.drop_last() =~= lines_for(ps.drop_last()));
        assert(ls.last() == line_for(ps.last().0, ps.last().1));
        lemma_line_for_parses(ps.last().0, ps.last().1);
    }
}

/// The round trip at the heart of the store: writing a fresh store file for
/// a set of pairs and reading it back yields exactly the mapping the pairs
/// describe.
pub proof fn lemma_fetch_after_create(ps: Seq<(Seq<char>, Seq<char>)>)
    requires
        storable_pairs(ps),
    ensures
        lines_ok(split_lines(render_lines(ps))),
        map_of_lines(split_lines(render_lines(ps))) == map_of_pairs(ps),
{
    lemma_render_lines_split(ps);
    lemma_map_of_rendered(ps);
}

/// Appending one assignment line to a store file adds that line to the
/// file's lines, and sets the name in the mapping the file describes.
pub proof fn lemma_append_line(c: Seq<char>, k: Seq<char>, v: Seq<char>)
    requires
        storable_key(k),
        storable_value(v),
        c.len() == 0 || c.last() == '\n',
    ensures
        split_lines(c + line_for(k, v) + seq!['\n']) == split_lines(c) + seq![line_for(k, v)],
        lines_ok(split_lines(c)) ==> lines_ok(split_lines(c + line_for(k, v) + seq!['\n'])),
        lines_ok(split_lines(c)) ==> map_of_lines(split_lines(c + line_for(k, v) + seq!['\n']))
            == map_of_lines(split_lines(c)).insert(k, v),
{
    let line = line_for(k, v);
    lemma_line_for_parses(k, v);
    lemma_split_lines_step(line, Seq::<char>::empty());
    assert(line + seq!['\n'] + Seq::<char>::empty() =~= line + seq!['\n']);
    assert(split_lines(line + seq!['\n']) == seq![line] + split_lines(Seq::<char>::empty()));
    assert(seq![line] + split_lines(Seq::<char>::empty()) =~= seq![line]);
    if c.len() == 0 {
        assert(c + line + seq!['\n'] =~= line + seq!['\n']);
        assert(split_lines(c) =~= Seq::<Seq<char>>::empty());
        assert(split_lines(c) + seq![line] =~= seq![line]);
    } else {
        lemma_split_lines_append(c, line + seq!['\n']);
        assert(c + (line + seq!['\n']) =~= c + line + seq!['\n']);
    }
    let ls = split_lines(c);
    let nls = ls + seq![line];
    assert(nls.drop_last() =~= ls);
    assert(nls.last() == line);
    if lines_ok(ls) {
        assert forall|i: int| 0 <= i < nls.len() implies (#[trigger] parse_line(nls[i]))
            is Some by {
            if i < ls.len() {
                assert(nls[i] == ls[i]);
            }
        }
    }
}

/// Renders the store line that records the assignment of `v` to `k`.
pub fn render_line(k: &str, v: &str) -> (r: String)
    ensures
        r@ == line_for(k@, v@),
{
    let mut out = String::from_str("export ");
    out.append(k);
    out.append("=");
    out.append(v);
    proof {
        assert((("export "@ + k@) + "="@) + v@ =~= line_for(k@, v@));
    }
    out
}

/// Reads one store line: the part after its last space, cut at its first
/// `=`. Yields nothing when the assignment part has no `=`.
pub fn parse_line_str(l: &str) -> (r: Option<(String, String)>)
    ensures
        match r {
            Some(kv) => parse_line(l@) == Some((kv.0@, kv.1@)),
            None => parse_line(l@) is None,
        },
{
    let n = l.unicode_len();
    let mut start: usize = 0;
    let mut i: usize = 0;
    while i < n
        invariant
            n == l@.len(),
            start <= i <= n,
            start > 0 ==> l@[start - 1] == ' ',
            forall|m: int| start <= m < i ==> l@[m] != ' ',
        decreases n - i,
    {
        if l.get_char(i) == ' ' {
            start = i + 1;
        }
        i = i + 1;
    }
    let ghost a = suffix_after_last(l@, ' ');
    proof {
        if start == 0 {
            lemma_suffix_after_last_absent(l@, ' ');
            assert(l@.subrange(0, n as int) =~= l@);
        } else {
            lemma_suffix_after_last_index(l@, ' ', start - 1);
        }
        assert(a == l@.subrange(start as int, n as int));
    }
    let mut e: usize = start;
    while e < n
        invariant
            n == l@.len(),
            start <= e <= n,
            a == l@.subrange(start as int, n as int),
            a == suffix_after_last(l@, ' '),
            forall|m: int| start <= m < e ==> l@[m] != '=',
        decreases n - e,
    {
        if l.get_char(e) == '=' {
            proof {
                assert(a[e - start] == '=');
                assert(forall|m: int| 0 <= m < e - start ==> a[m] == l@[start + m]);
                lemma_first_occurrence_index(a, '=', e - start);
                assert(prefix_before_first(a, '=') =~= l@.subrange(start as int, e as int));
                assert(suffix_after_first(a, '=') =~= l@.subrange(e + 1, n as int));
            }
            let key = String::from_str(l.substring_char(start, e));
            let value = String::from_str(l.substring_char(e + 1, n));
            return Some((key, value));
        }
        e = e + 1;
    }
    proof {
        assert(!a.contains('=')) by {
            if a.contains('=') {
                let m = choose|m: int| 0 <= m < a.len() && a[m] == '=';
                assert(l@[start + m] == '=');
            }
        }
    }
    None
}

} // verus!
