//! The descriptor parser: a line-oriented, block-structured format in which a
//! `%KEY%` marker line opens a field block and the following non-blank lines,
//! up to the next marker line, are that field's ordered values.

use crate::text::{is_marker, is_marker_line, lines_of, norm_key, normalize_key};
use vstd::hash_map::StringHashMap;
use vstd::prelude::*;

verus! {

/// The parser state after some lines have been consumed: the key of the open
/// block (if any), the values accumulated for it so far, and the fields
/// already committed.
#[verifier::ext_equal]
pub struct BlockState {
    pub key: Option<Seq<char>>,
    pub vals: Seq<Seq<char>>,
    pub fields: Map<Seq<char>, Seq<Seq<char>>>,
}

/// The state before any line is consumed: no block open, nothing committed.
pub open spec fn init_state() -> BlockState {
    BlockState { key: None, vals: Seq::empty(), fields: Map::empty() }
}

/// Commits the open block, if any. Each new marker line does this, and so
/// does end-of-input: the final block of a descriptor is committed even when
/// no marker line follows it.
pub open spec fn commit(st: BlockState) -> Map<Seq<char>, Seq<Seq<char>>> {
    match st.key {
        Some(k) => st.fields.insert(k, st.vals),
        None => st.fields,
    }
}

/// Advances the parser state over one line: a marker line commits the open
/// block and opens a new one under its normalized key; a blank line is
/// dropped, never recorded as a value; any other line extends the open
/// block's values, and is dropped when no block is open.
pub open spec fn step(st: BlockState, line: Seq<char>) -> BlockState {
    if is_marker(line) {
        BlockState { key: Some(norm_key(line)), vals: Seq::empty(), fields: commit(st) }
    } else if line.len() == 0 {
        st
    } else {
        match st.key {
            Some(_) => BlockState { key: st.key, vals: st.vals.push(line), fields: st.fields },
            None => st,
        }
    }
}

/// Advances the parser state over a sequence of lines, first line first.
pub open spec fn run(st: BlockState, lines: Seq<Seq<char>>) -> BlockState
    decreases lines.len(),
{
    if lines.len() == 0 {
        st
    } else {
        run(step(st, lines[0]), lines.drop_first())
    }
}

/// The field map parsed from a sequence of lines, the final block committed.
pub open spec fn fields_of_lines(lines: Seq<Seq<char>>) -> Map<Seq<char>, Seq<Seq<char>>> {
    commit(run(init_state(), lines))
}

/// The field map parsed from a descriptor text.
pub open spec fn desc_fields(text: Seq<char>) -> Map<Seq<char>, Seq<Seq<char>>> {
    fields_of_lines(lines_of(text))
}

/// The package name a descriptor text resolves to: the first value line of
/// its `name` field; `None` when that field is missing or has no values.
pub open spec fn desc_name(text: Seq<char>) -> Option<Seq<char>> {
    let m = desc_fields(text);
    if m.contains_key("name"@) && m["name"@].len() > 0 {
        Some(m["name"@][0])
    } else {
        None
    }
}

/// Running the parser over concatenated line sequences equals running it over
/// each part in turn.
pub proof fn lemma_run_append(st: BlockState, a: Seq<Seq<char>>, b: Seq<Seq<char>>)
    ensures
        run(st, a + b) == run(run(st, a), b),
    decreases a.len(),
{
    if a.len() == 0 {
        assert(a + b =~= b);
    } else {
        assert((a + b)[0] == a[0]);
        assert((a + b).drop_first() =~= a.drop_first() + b);
        lemma_run_append(step(st, a[0]), a.drop_first(), b);
    }
}

/// Running the parser over one more line steps the state once.
pub proof fn lemma_run_snoc(st: BlockState, lines: Seq<Seq<char>>, i: int)
    requires
        0 <= i < lines.len(),
    ensures
        run(st, lines.take(i + 1)) == step(run(st, lines.take(i)), lines[i]),
{
    let one = seq![lines[i]];
    assert(lines.take(i + 1) =~= lines.take(i) + one);
    lemma_run_append(st, lines.take(i), one);
    let x = run(st, lines.take(i));
    assert(one[0] == lines[i]);
    assert(run(x, one) == run(step(x, one[0]), one.drop_first()));
    assert(one.drop_first().len() == 0);
    assert(run(step(x, lines[i]), one.drop_first()) == step(x, lines[i]));
}

/// The non-blank lines of a sequence of lines, in order.
pub open spec fn nonblank(lines: Seq<Seq<char>>) -> Seq<Seq<char>>
    decreases lines.len(),
{
    if lines.len() == 0 {
        Seq::empty()
    } else if lines[0].len() == 0 {
        nonblank(lines.drop_first())
    } else {
        seq![lines[0]] + nonblank(lines.drop_first())
    }
}

/// The mathematical contents of an executable field map.
pub open spec fn meta_view(m: Map<Seq<char>, Vec<String>>) -> Map<Seq<char>, Seq<Seq<char>>> {
    m.map_values(|v: Vec<String>| v.deep_view())
}

proof fn lemma_meta_view_insert(m: Map<Seq<char>, Vec<String>>, k: Seq<char>, v: Vec<String>)
    ensures
        meta_view(m.insert(k, v)) == meta_view(m).insert(k, v.deep_view()),
{
    assert(meta_view(m.insert(k, v)) =~= meta_view(m).insert(k, v.deep_view()));
}

proof fn lemma_push_no_duplicates<A>(s: Seq<A>, x: A)
    requires
        s.no_duplicates(),
        !s.contains(x),
    ensures
        s.push(x).no_duplicates(),
{
    let p = s.push(x);
    assert forall|i: int, j: int| 0 <= i < j < p.len() implies p[i] != p[j] by {
        if j == p.len() - 1 {
            assert(p[i] == s[i]);
            if s[i] == x {
                assert(s.contains(x));
            }
        }
    }
}

/// The state of the executable parser, lifted to the mathematical model.
spec fn abs_state(
    key_s: Option<String>,
    vals: Vec<String>,
    fields: StringHashMap<Vec<String>>,
) -> BlockState {
    BlockState {
        key: match key_s {
            Some(k) => Some(k@),
            None => None,
        },
        vals: vals.deep_view(),
        fields: meta_view(fields@),
    }
}

/// Folds the parser over the given lines, returning the committed field map
/// together with its keys in order of first appearance.
pub fn parse_fields(lines: &Vec<String>) -> (r: (StringHashMap<Vec<String>>, Vec<String>))
    ensures
        meta_view(r.0@) == fields_of_lines(lines.deep_view()),
        r.1.deep_view().no_duplicates(),
        forall|j: int|
            0 <= j < r.1.deep_view().len() ==> r.0@.contains_key(#[trigger] r.1.deep_view()[j]),
        forall|k: Seq<char>| r.0@.contains_key(k) ==> r.1.deep_view().contains(k),
{
    let ghost all = lines.deep_view();
    let mut key_s: Option<String> = None;
    let mut vals: Vec<String> = Vec::new();
    let mut fields: StringHashMap<Vec<String>> = StringHashMap::new();
    let mut keys: Vec<String> = Vec::new();
    let mut i: usize = 0;
    proof {
        assert(all.take(0) =~= Seq::<Seq<char>>::empty());
        assert(vals.deep_view() =~= Seq::<Seq<char>>::empty());
        assert(keys.deep_view() =~= Seq::<Seq<char>>::empty());
        assert(meta_view(fields@) =~= Map::<Seq<char>, Seq<Seq<char>>>::empty());
        assert(abs_state(key_s, vals, fields) =~= init_state());
    }
    while i < lines.len()
        invariant
            i <= lines.len(),
            all == lines.deep_view(),
            abs_state(key_s, vals, fields) == run(init_state(), all.take(i as int)),
            keys.deep_view().no_duplicates(),
            forall|j: int|
                0 <= j < keys.deep_view().len() ==> fields@.contains_key(
                    #[trigger] keys.deep_view()[j],
                ),
            forall|k: Seq<char>| fields@.contains_key(k) ==> keys.deep_view().contains(k),
        decreases lines.len() - i,
    {
        let ghost st_pre = abs_state(key_s, vals, fields);
        let line = &lines[i];
        proof {
            lemma_run_snoc(init_state(), all, i as int);
            assert(all[i as int] == line@);
        }
        if is_marker_line(line.as_str()) {
            let new_key = normalize_key(line.as_str());
            let old_key = key_s;
            key_s = Some(new_key);
            let old_vals = vals;
            vals = Vec::new();
            match old_key {
                Some(k) => {
                    let ghost keys_pre = keys.deep_view();
                    let fresh = !fields.contains_key(k.as_str());
                    if fresh {
                        keys.push(k.clone());
                        proof {
                            assert(keys.deep_view() =~= keys_pre.push(k@));
                            lemma_push_no_duplicates(keys_pre, k@);
                        }
                    }
                    proof {
                        lemma_meta_view_insert(fields@, k@, old_vals);
                    }
                    fields.insert(k, old_vals);
                    proof {
                        assert forall|q: Seq<char>| fields@.contains_key(q) implies keys.deep_view().contains(q) by {
                            if q != k@ {
                                assert(keys_pre.contains(q));
                                assert(keys.deep_view().contains(q)) by {
                                    let w = choose|w: int|
                                        0 <= w < keys_pre.len() && keys_pre[w] == q;
                                    assert(keys.deep_view()[w] == q);
                                }
                            } else {
                                if fresh {
                                    assert(keys.deep_view()[keys.deep_view().len() - 1] == k@);
                                } else {
                                    assert(keys_pre.contains(k@));
                                    let w = choose|w: int|
                                        0 <= w < keys_pre.len() && keys_pre[w] == k@;
                                    assert(keys.deep_view()[w] == k@);
                                }
                            }
                        }
                    }
                },
                None => {},
            }
            proof {
                assert(vals.deep_view() =~= Seq::<Seq<char>>::empty());
                assert(abs_state(key_s, vals, fields) =~= step(st_pre, line@));
            }
        } else if line.as_str().is_empty() {
            proof {
                assert(abs_state(key_s, vals, fields) =~= step(st_pre, line@));
            }
        } else {
            match &key_s {
                Some(_) => {
                    let ghost vals_pre = vals.deep_view();
                    vals.push(line.clone());
                    proof {
                        assert(vals.deep_view() =~= vals_pre.push(line@));
                    }
                },
                None => {},
            }
            proof {
                assert(abs_state(key_s, vals, fields) =~= step(st_pre, line@));
            }
        }
        i = i + 1;
    }
    proof {
        assert(all.take(lines.len() as int) =~= all);
    }
    match key_s {
        Some(k) => {
            let ghost keys_pre = keys.deep_view();
            let ghost st_fin = abs_state(Some(k), vals, fields);
            let fresh = !fields.contains_key(k.as_str());
            if fresh {
                keys.push(k.clone());
                proof {
                    assert(keys.deep_view() =~= keys_pre.push(k@));
                    lemma_push_no_duplicates(keys_pre, k@);
                }
            }
            proof {
                lemma_meta_view_insert(fields@, k@, vals);
            }
            let ghost vals_dv = vals.deep_view();
            fields.insert(k, vals);
            proof {
                assert(meta_view(fields@) == commit(st_fin));
                assert forall|q: Seq<char>| fields@.contains_key(q) implies keys.deep_view().contains(q) by {
                    if q != k@ {
                        assert(keys_pre.contains(q));
                        let w = choose|w: int| 0 <= w < keys_pre.len() && keys_pre[w] == q;
                        assert(keys.deep_view()[w] == q);
                    } else {
                        if fresh {
                            assert(keys.deep_view()[keys.deep_view().len() - 1] == k@);
                        } else {
                            assert(keys_pre.contains(k@));
                            let w = choose|w: int| 0 <= w < keys_pre.len() && keys_pre[w] == k@;
                            assert(keys.deep_view()[w] == k@);
                        }
                    }
                }
            }
        },
        None => {},
    }
    (fields, keys)
}

} // verus!
