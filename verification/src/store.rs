//! The store's operations on the text of its file: fetch, create, set,
//! edit, unset, backup and restore. Each function here works on the file's
//! content handed in as a value; reading and writing the file itself is the
//! caller's part. An operation that needs an existing store file takes an
//! `Option`: `None` stands for a missing file and fails the way the store
//! always has.

use vstd::prelude::*;

use crate::error::StoreError;
use crate::lines::{
    assign_of, drop_lines, lemma_append_line, lemma_drop_lines_props, lemma_fetch_after_create,
    line_for, lines_ok, map_of_lines, map_of_pairs, parse_line, parse_line_str, render_line,
    render_lines, storable_key, storable_pairs, storable_value,
};
use crate::text::{
    join_lines, join_lines_vec, lemma_split_join, lemma_split_lines_no_newline, replace_all,
    replace_all_str, split_lines, split_lines_str, str_eq,
};
use crate::varmap::VarMap;

verus! {

/// Every line of a store file's text parses.
pub open spec fn store_ok(c: Seq<char>) -> bool {
    lines_ok(split_lines(c))
}

/// The mapping a store file's text describes, a later line overriding an
/// earlier one with the same name.
pub open spec fn store_map(c: Seq<char>) -> Map<Seq<char>, Seq<char>> {
    map_of_lines(split_lines(c))
}

/// Reads the mapping out of the store file's text. Fails exactly when some
/// line is malformed.
pub fn fetch_vars(content: &str) -> (r: Result<VarMap, StoreError>)
    ensures
        match r {
            Ok(m) => store_ok(content@) && m.wf() && m.as_map() == store_map(content@),
            Err(e) => e == StoreError::MalformedLine && !store_ok(content@),
        },
{
    let lines = split_lines_str(content);
    let mut m = VarMap::new();
    let n = lines.len();
    proof {
        assert(lines.deep_view().subrange(0, 0) =~= Seq::<Seq<char>>::empty());
    }
    let mut i: usize = 0;
    while i < n
        invariant
            n == lines.deep_view().len(),
            n == lines@.len(),
            lines.deep_view() == split_lines(content@),
            i <= n,
            m.wf(),
            forall|j: int| 0 <= j < i ==> (#[trigger] parse_line(lines.deep_view()[j])) is Some,
            m.as_map() == map_of_lines(lines.deep_view().subrange(0, i as int)),
        decreases n - i,
    {
        proof {
            assert(lines.deep_view()[i as int] == lines@[i as int]@);
        }
        match parse_line_str(lines[i].as_str()) {
            None => {
                proof {
                    assert(!store_ok(content@)) by {
                        assert(parse_line(split_lines(content@)[i as int]) is None);
                    }
                }
                return Err(StoreError::MalformedLine);
            },
            Some(kv) => {
                proof {
                    assert(lines.deep_view().subrange(0, i + 1).drop_last() =~= lines.deep_view()
                        .subrange(0, i as int));
                    assert(lines.deep_view().subrange(0, i + 1).last() == lines.deep_view()[
                        i as int
                    ]);
                }
                m.insert(kv.0, kv.1);
            },
        }
        i = i + 1;
    }
    proof {
        assert(lines.deep_view().subrange(0, n as int) =~= lines.deep_view());
    }
    Ok(m)
}

/// The text of a fresh store file for the given variables: one
/// `export NAME=VALUE` line per pair, each with a trailing newline, in the
/// mapping's order.
pub fn create_evo(vars: &VarMap) -> (r: String)
    ensures
        r@ == render_lines(vars.pairs()),
{
    let n = vars.len();
    let mut out = String::new();
    proof {
        assert(vars.pairs().subrange(0, n as int) =~= vars.pairs());
        assert(out@ + render_lines(vars.pairs()) =~= render_lines(vars.pairs()));
    }
    let mut i: usize = 0;
    while i < n
        invariant
            n == vars.pairs().len(),
            i <= n,
            render_lines(vars.pairs()) == out@ + render_lines(
                vars.pairs().subrange(i as int, n as int),
            ),
        decreases n - i,
    {
        let line = render_line(vars.key_at(i).as_str(), vars.value_at(i).as_str());
        out.append(line.as_str());
        out.append("\n");
        proof {
            reveal_strlit("\n");
            assert("\n"@ =~= seq!['\n']);
            let tail = vars.pairs().subrange(i as int, n as int);
            assert(tail.first() == vars.pairs()[i as int]);
            assert(tail.drop_first() =~= vars.pairs().subrange(i + 1, n as int));
            assert(out@ + render_lines(vars.pairs().subrange(i + 1, n as int)) =~= render_lines(
                vars.pairs(),
            ));
        }
        i = i + 1;
    }
    proof {
        assert(vars.pairs().subrange(n as int, n as int) =~= Seq::<(Seq<char>, Seq<char>)>::empty());
        assert(out@ + render_lines(vars.pairs().subrange(n as int, n as int)) =~= out@);
    }
    out
}

/// The text of the backup file for the given variables: the same rendering
/// a fresh store file gets.
pub fn make_backup(vars: &VarMap) -> (r: String)
    ensures
        r@ == render_lines(vars.pairs()),
{
    create_evo(vars)
}

/// The text the store file holds after a restore: exactly the backup's
/// text. Fails when there is no backup to restore from (`backup` is
/// `None`).
pub fn restore_backup(backup: Option<&str>) -> (r: Result<String, StoreError>)
    ensures
        match (r, backup) {
            (Ok(c), Some(b)) => c@ == b@,
            (Err(e), None) => e == StoreError::Io,
            (Err(_), Some(_)) => false,
            (Ok(_), None) => false,
        },
{
    match backup {
        None => Err(StoreError::Io),
        Some(b) => Ok(String::from_str(b)),
    }
}

/// Adds or overwrites one variable: appends its line to the store file's
/// text and records it in the returned mapping. Fails when the store file
/// is absent (`store` is `None`) or some line of it is malformed.
pub fn set_var(store: Option<&str>, key: &str, value: String) -> (r: Result<
    (String, VarMap),
    StoreError,
>)
    ensures
        match (r, store) {
            (Ok(p), Some(c)) => {
                &&& store_ok(c@)
                &&& p.0@ == c@ + line_for(key@, value@) + seq!['\n']
                &&& p.1.wf()
                &&& p.1.as_map() == store_map(c@).insert(key@, value@)
            },
            (Err(e), None) => e == StoreError::StoreFileMissing,
            (Err(e), Some(c)) => e == StoreError::MalformedLine && !store_ok(c@),
            (Ok(_), None) => false,
        },
{
    let content = match store {
        None => {
            return Err(StoreError::StoreFileMissing);
        },
        Some(c) => c,
    };
    let mut vars = match fetch_vars(content) {
        Err(e) => {
            return Err(e);
        },
        Ok(m) => m,
    };
    let line = render_line(key, value.as_str());
    let mut out = String::from_str(content);
    out.append(line.as_str());
    out.append("\n");
    vars.insert(String::from_str(key), value);
    proof {
        reveal_strlit("\n");
        assert("\n"@ =~= seq!['\n']);
        assert((content@ + line_for(key@, value@)) + seq!['\n'] =~= content@ + line_for(
            key@,
            value@,
        ) + seq!['\n']);
    }
    Ok((out, vars))
}

/// Changes the value of an existing variable: replaces every occurrence of
/// the text `NAME=OLDVALUE` in the store file by `NAME=NEWVALUE`, and
/// records the new value in the returned mapping. Fails when the store file
/// is absent, some line of it is malformed, or the name is not present.
pub fn edit_var(store: Option<&str>, key: &str, value: String) -> (r: Result<
    (String, VarMap),
    StoreError,
>)
    ensures
        match (r, store) {
            (Ok(p), Some(c)) => {
                &&& store_ok(c@)
                &&& store_map(c@).contains_key(key@)
                &&& p.0@ == replace_all(
                    c@,
                    assign_of(key@, store_map(c@)[key@]),
                    assign_of(key@, value@),
                )
                &&& p.1.wf()
                &&& p.1.as_map() == store_map(c@).insert(key@, value@)
            },
            (Err(e), None) => e == StoreError::StoreFileMissing,
            (Err(e), Some(c)) => {
                &&& (e == StoreError::MalformedLine <==> !store_ok(c@))
                &&& (e == StoreError::KeyNotFound <==> store_ok(c@) && !store_map(
                    c@,
                ).contains_key(key@))
                &&& (e == StoreError::MalformedLine || e == StoreError::KeyNotFound)
            },
            (Ok(_), None) => false,
        },
{
    let content = match store {
        None => {
            return Err(StoreError::StoreFileMissing);
        },
        Some(c) => c,
    };
    let mut vars = match fetch_vars(content) {
        Err(e) => {
            return Err(e);
        },
        Ok(m) => m,
    };
    let old_value = match vars.get(key) {
        None => {
            return Err(StoreError::KeyNotFound);
        },
        Some(v) => v.clone(),
    };
    let mut pattern = String::from_str(key);
    pattern.append("=");
    pattern.append(old_value.as_str());
    let mut replacement = String::from_str(key);
    replacement.append("=");
    replacement.append(value.as_str());
    proof {
        reveal_strlit("=");
        assert(pattern@ == assign_of(key@, store_map(content@)[key@]));
        assert(replacement@ == assign_of(key@, value@));
        assert(pattern@.len() > 0);
    }
    let out = replace_all_str(content, pattern.as_str(), replacement.as_str());
    vars.insert(String::from_str(key), value);
    Ok((out, vars))
}

/// Removes a variable's lines: drops every line equal to
/// `export NAME=VALUE` and rewrites the text as the kept lines joined by
/// newlines, with no trailing newline. The returned mapping keeps the name,
/// re-bound to the empty value, the way the store has always answered an
/// unset. Fails when the store file is absent, some line of it is
/// malformed, or the name is not present.
pub fn unset_var(store: Option<&str>, key: &str) -> (r: Result<(String, VarMap), StoreError>)
    ensures
        match (r, store) {
            (Ok(p), Some(c)) => {
                &&& store_ok(c@)
                &&& store_map(c@).contains_key(key@)
                &&& p.0@ == join_lines(
                    drop_lines(split_lines(c@), line_for(key@, store_map(c@)[key@])),
                )
                &&& split_lines(p.0@) == drop_lines(
                    split_lines(c@),
                    line_for(key@, store_map(c@)[key@]),
                )
                &&& store_ok(p.0@)
                &&& p.1.wf()
                &&& p.1.as_map() == store_map(c@).insert(key@, Seq::<char>::empty())
            },
            (Err(e), None) => e == StoreError::StoreFileMissing,
            (Err(e), Some(c)) => {
                &&& (e == StoreError::MalformedLine <==> !store_ok(c@))
                &&& (e == StoreError::KeyNotFound <==> store_ok(c@) && !store_map(
                    c@,
                ).contains_key(key@))
                &&& (e == StoreError::MalformedLine || e == StoreError::KeyNotFound)
            },
            (Ok(_), None) => false,
        },
{
    let content = match store {
        None => {
            return Err(StoreError::StoreFileMissing);
        },
        Some(c) => c,
    };
    let mut vars = match fetch_vars(content) {
        Err(e) => {
            return Err(e);
        },
        Ok(m) => m,
    };
    let old_value = match vars.get(key) {
        None => {
            return Err(StoreError::KeyNotFound);
        },
        Some(v) => v.clone(),
    };
    let target = render_line(key, old_value.as_str());
    let ghost goal = line_for(key@, store_map(content@)[key@]);
    let lines = split_lines_str(content);
    let n = lines.len();
    let mut kept: Vec<String> = Vec::new();
    proof {
        assert(lines.deep_view().subrange(0, 0) =~= Seq::<Seq<char>>::empty());
        assert(kept.deep_view() =~= drop_lines(lines.deep_view().subrange(0, 0), goal));
    }
    let mut i: usize = 0;
    while i < n
        invariant
            n == lines.deep_view().len(),
            n == lines@.len(),
            lines.deep_view() == split_lines(content@),
            target@ == goal,
            i <= n,
            kept.deep_view() == drop_lines(lines.deep_view().subrange(0, i as int), goal),
        decreases n - i,
    {
        proof {
            assert(lines.deep_view()[i as int] == lines@[i as int]@);
            assert(lines.deep_view().subrange(0, i + 1).drop_last() =~= lines.deep_view().subrange(
                0,
                i as int,
            ));
            assert(lines.deep_view().subrange(0, i + 1).last() == lines.deep_view()[i as int]);
        }
        if !str_eq(lines[i].as_str(), target.as_str()) {
            let ghost prev = kept.deep_view();
            kept.push(lines[i].clone());
            proof {
                assert(kept.deep_view() =~= prev.push(lines.deep_view()[i as int]));
            }
        }
        i = i + 1;
    }
    proof {
        assert(lines.deep_view().subrange(0, n as int) =~= lines.deep_view());
    }
    let out = join_lines_vec(&kept);
    proof {
        let all = split_lines(content@);
        let keptg = drop_lines(all, goal);
        lemma_drop_lines_props(all, goal);
        lemma_split_lines_no_newline(content@);
        assert forall|j: int| 0 <= j < keptg.len() implies (#[trigger] keptg[j]).len() > 0
            && !keptg[j].contains('\n') && parse_line(keptg[j]) is Some by {
            let w = choose|w: int| 0 <= w < all.len() && all[w] == keptg[j];
            assert(parse_line(all[w]) is Some);
            assert(keptg[j].len() > 0) by {
                if all[w].len() == 0 {
                    crate::text::lemma_suffix_after_last_absent(all[w], ' ');
                    assert(!all[w].contains('='));
                }
            }
        }
        lemma_split_join(keptg);
        assert(lines_ok(keptg));
    }
    vars.insert(String::from_str(key), String::new());
    Ok((out, vars))
}

/// Fetching a freshly created store file yields exactly the written
/// mapping, whatever order its pairs came in. The same text is what a
/// backup writes and what the store file holds again after a restore, so a
/// restore recovers the backed-up mapping as well.
pub proof fn lemma_create_fetch_round_trip(ps: Seq<(Seq<char>, Seq<char>)>)
    requires
        storable_pairs(ps),
    ensures
        store_ok(render_lines(ps)),
        store_map(render_lines(ps)) == map_of_pairs(ps),
{
    lemma_fetch_after_create(ps);
}

/// Setting a variable then fetching shows the new value: the text a set
/// writes describes the old mapping with the one name re-bound, provided
/// the old text was empty or newline-terminated, as every freshly created
/// or set store file is.
pub proof fn lemma_set_then_fetch(c: Seq<char>, k: Seq<char>, v: Seq<char>)
    requires
        storable_key(k),
        storable_value(v),
        store_ok(c),
        c.len() == 0 || c.last() == '\n',
    ensures
        store_ok(c + line_for(k, v) + seq!['\n']),
        store_map(c + line_for(k, v) + seq!['\n']) == store_map(c).insert(k, v),
{
    lemma_append_line(c, k, v);
}

/// After an unset, no line of the store file records the dropped
/// assignment.
pub proof fn lemma_unset_removes_line(lines: Seq<Seq<char>>, target: Seq<char>)
    ensures
        forall|i: int|
            0 <= i < drop_lines(lines, target).len() ==> (#[trigger] drop_lines(lines, target)[i])
                != target,
{
    lemma_drop_lines_props(lines, target);
}

} // verus!
