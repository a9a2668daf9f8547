//! The general guarantees of the library, stated and proved over the same
//! spec functions that the executable functions' contracts use.

use crate::compress::{gzip_decoded, spec_decompress, zstd_decoded};
use crate::db::{all_parse, spec_db_map, spec_parse_package};
use crate::parse::{
    commit, desc_fields, desc_name, fields_of_lines, init_state, lemma_run_append, lemma_run_snoc,
    nonblank, run, step, BlockState,
};
use crate::text::{is_marker, lines_of, norm_key};
use vstd::prelude::*;

verus! {

/// Blank lines contribute nothing: the parser reaches the same state whether
/// or not they are present.
pub proof fn lemma_blank_lines_dropped(st: BlockState, lines: Seq<Seq<char>>)
    ensures
        run(st, lines) == run(st, nonblank(lines)),
    decreases lines.len(),
{
    if lines.len() == 0 {
    } else if lines[0].len() == 0 {
        assert(step(st, lines[0]) == st);
        lemma_blank_lines_dropped(st, lines.drop_first());
    } else {
        assert(nonblank(lines)[0] == lines[0]);
        assert(nonblank(lines).drop_first() =~= nonblank(lines.drop_first()));
        lemma_blank_lines_dropped(step(st, lines[0]), lines.drop_first());
    }
}

/// A descriptor parses to the same field map as the same descriptor with its
/// blank lines removed.
pub proof fn lemma_desc_fields_ignore_blanks(text: Seq<char>)
    ensures
        desc_fields(text) == fields_of_lines(nonblank(lines_of(text))),
{
    lemma_blank_lines_dropped(init_state(), lines_of(text));
}

/// Running the parser over lines that hold no marker keeps the open block's
/// key and committed fields, and extends its values by exactly the non-blank
/// lines, in order.
pub proof fn lemma_run_no_markers(st: BlockState, lines: Seq<Seq<char>>)
    requires
        st.key is Some,
        forall|t: int| 0 <= t < lines.len() ==> !is_marker(#[trigger] lines[t]),
    ensures
        run(st, lines).key == st.key,
        run(st, lines).fields == st.fields,
        run(st, lines).vals == st.vals + nonblank(lines),
    decreases lines.len(),
{
    if lines.len() == 0 {
        assert(st.vals + nonblank(lines) =~= st.vals);
    } else {
        let st2 = step(st, lines[0]);
        assert(forall|t: int|
            0 <= t < lines.drop_first().len() ==> !is_marker(#[trigger] lines.drop_first()[t]));
        lemma_run_no_markers(st2, lines.drop_first());
        if lines[0].len() == 0 {
            assert(st2 == st);
        } else {
            assert(st2.vals == st.vals.push(lines[0]));
            assert(st.vals.push(lines[0]) + nonblank(lines.drop_first()) =~= st.vals + (seq![
                lines[0],
            ] + nonblank(lines.drop_first())));
        }
    }
}

/// Whatever the parser does after this point, a committed field whose key no
/// later marker line reuses, and which is not the open block's key, keeps
/// its value through to the final committed map.
pub proof fn lemma_run_preserves_key(st: BlockState, lines: Seq<Seq<char>>, k: Seq<char>)
    requires
        st.fields.contains_key(k),
        match st.key {
            Some(kk) => kk != k,
            None => true,
        },
        forall|t: int|
            0 <= t < lines.len() && is_marker(#[trigger] lines[t]) ==> norm_key(lines[t]) != k,
    ensures
        commit(run(st, lines)).contains_key(k),
        commit(run(st, lines))[k] == st.fields[k],
    decreases lines.len(),
{
    if lines.len() == 0 {
    } else {
        let st2 = step(st, lines[0]);
        assert(forall|t: int|
            0 <= t < lines.drop_first().len() && is_marker(#[trigger] lines.drop_first()[t])
                ==> norm_key(lines.drop_first()[t]) != k);
        lemma_run_preserves_key(st2, lines.drop_first(), k);
    }
}

/// A marker line opens a field block whose committed values are exactly the
/// non-blank lines up to the next marker line (at `j`, or `j` at end of
/// input), in order. With `j` at end of input this is the
/// final block of the descriptor: it is committed even though no marker line
/// follows it. The key must not be reused by a later marker line.
pub proof fn lemma_field_block(text: Seq<char>, i: int, j: int)
    requires
        0 <= i < j <= lines_of(text).len(),
        is_marker(lines_of(text)[i]),
        forall|t: int| i < t < j ==> !is_marker(#[trigger] lines_of(text)[t]),
        j < lines_of(text).len() ==> is_marker(lines_of(text)[j]),
        forall|t: int|
            j <= t < lines_of(text).len() && is_marker(#[trigger] lines_of(text)[t])
                ==> norm_key(lines_of(text)[t]) != norm_key(lines_of(text)[i]),
    ensures
        desc_fields(text).contains_key(norm_key(lines_of(text)[i])),
        desc_fields(text)[norm_key(lines_of(text)[i])] == nonblank(
            lines_of(text).subrange(i + 1, j),
        ),
{
    let lines = lines_of(text);
    let k = norm_key(lines[i]);
    let seg = lines.subrange(i + 1, j);
    lemma_run_snoc(init_state(), lines, i);
    let st_open = run(init_state(), lines.take(i + 1));
    assert(st_open.key == Some(k));
    assert(st_open.vals =~= Seq::<Seq<char>>::empty());
    assert(lines.take(j) =~= lines.take(i + 1) + seg);
    lemma_run_append(init_state(), lines.take(i + 1), seg);
    assert(forall|t: int| 0 <= t < seg.len() ==> !is_marker(#[trigger] seg[t]));
    lemma_run_no_markers(st_open, seg);
    let st_j = run(init_state(), lines.take(j));
    assert(st_j.key == Some(k));
    assert(st_j.vals =~= nonblank(seg));
    if j == lines.len() {
        assert(lines.take(j) =~= lines);
        assert(desc_fields(text) == commit(st_j));
        assert(commit(st_j)[k] == st_j.vals);
    } else {
        lemma_run_snoc(init_state(), lines, j);
        let st_next = step(st_j, lines[j]);
        assert(st_next.fields == commit(st_j));
        assert(st_next.fields.contains_key(k) && st_next.fields[k] == st_j.vals);
        assert(st_next.key == Some(norm_key(lines[j])));
        assert(lines =~= lines.take(j + 1) + lines.skip(j + 1));
        lemma_run_append(init_state(), lines.take(j + 1), lines.skip(j + 1));
        assert(forall|t: int|
            0 <= t < lines.skip(j + 1).len() && is_marker(#[trigger] lines.skip(j + 1)[t])
                ==> norm_key(lines.skip(j + 1)[t]) != k);
        lemma_run_preserves_key(st_next, lines.skip(j + 1), k);
    }
}

/// A descriptor whose field map lacks a `name` field never resolves to a
/// package name: parsing it fails rather than defaulting.
pub proof fn lemma_missing_name(text: Seq<char>)
    requires
        !desc_fields(text).contains_key("name"@),
    ensures
        desc_name(text) is None,
{
}

/// An archive compressed with gzip instead of zstandard decompresses to the
/// same payload through the fallback path, so everything downstream of
/// decompression, and hence the package set, is identical.
pub proof fn lemma_gzip_fallback(raw_z: Seq<u8>, raw_g: Seq<u8>)
    requires
        zstd_decoded(raw_z) is Some,
        zstd_decoded(raw_g) is None,
        gzip_decoded(raw_g) == zstd_decoded(raw_z),
    ensures
        spec_decompress(raw_z) == spec_decompress(raw_g),
{
}

/// Every package in the package map is well-formed and stored under its own
/// name: the key equals the record's name, and the record's `name` field
/// opens with that name.
pub proof fn lemma_db_map_records(texts: Seq<Seq<u8>>)
    requires
        all_parse(texts),
    ensures
        forall|k: Seq<char>|
            #[trigger] spec_db_map(texts).contains_key(k) ==> spec_db_map(texts)[k].name == k
                && spec_db_map(texts)[k].wf(),
    decreases texts.len(),
{
    if texts.len() == 0 {
    } else {
        let rest = texts.drop_last();
        assert(all_parse(rest)) by {
            assert(forall|j: int| 0 <= j < rest.len() ==> rest[j] == texts[j]);
        }
        lemma_db_map_records(rest);
        let p = spec_parse_package(texts.last())->Some_0;
        assert(spec_db_map(texts) == spec_db_map(rest).insert(p.name, p));
        assert(p.wf());
    }
}

/// Every parsed descriptor's name is a key of the package map, and every key
/// of the package map is some parsed descriptor's name.
pub proof fn lemma_db_map_dom(texts: Seq<Seq<u8>>)
    requires
        all_parse(texts),
    ensures
        spec_db_map(texts).dom().finite(),
        forall|n: Seq<char>|
            #[trigger] spec_db_map(texts).contains_key(n) ==> exists|j: int|
                0 <= j < texts.len() && spec_parse_package(texts[j])->Some_0.name == n,
        forall|j: int|
            0 <= j < texts.len() ==> spec_db_map(texts).contains_key(
                spec_parse_package(#[trigger] texts[j])->Some_0.name,
            ),
    decreases texts.len(),
{
    if texts.len() == 0 {
    } else {
        let rest = texts.drop_last();
        assert(all_parse(rest)) by {
            assert(forall|j: int| 0 <= j < rest.len() ==> rest[j] == texts[j]);
        }
        lemma_db_map_dom(rest);
        let p = spec_parse_package(texts.last())->Some_0;
        assert(spec_db_map(texts) == spec_db_map(rest).insert(p.name, p));
        assert forall|n: Seq<char>| #[trigger] spec_db_map(texts).contains_key(n) implies exists|j: int|
            0 <= j < texts.len() && spec_parse_package(texts[j])->Some_0.name == n by {
            if n == p.name {
                assert(spec_parse_package(texts[texts.len() - 1])->Some_0.name == n);
            } else {
                assert(spec_db_map(rest).contains_key(n));
                let j = choose|j: int|
                    0 <= j < rest.len() && spec_parse_package(rest[j])->Some_0.name == n;
                assert(spec_parse_package(texts[j])->Some_0.name == n);
            }
        }
        assert forall|j: int| 0 <= j < texts.len() implies spec_db_map(texts).contains_key(
            spec_parse_package(#[trigger] texts[j])->Some_0.name,
        ) by {
            if j < texts.len() - 1 {
                assert(rest[j] == texts[j]);
                assert(spec_db_map(rest).contains_key(spec_parse_package(rest[j])->Some_0.name));
            }
        }
    }
}

/// When the descriptor entries resolve to pairwise distinct names, the
/// package map holds exactly one package per descriptor entry.
pub proof fn lemma_package_count(texts: Seq<Seq<u8>>)
    requires
        all_parse(texts),
        forall|a: int, b: int|
            0 <= a < b < texts.len() ==> spec_parse_package(#[trigger] texts[a])->Some_0.name
                != spec_parse_package(#[trigger] texts[b])->Some_0.name,
    ensures
        spec_db_map(texts).dom().finite(),
        spec_db_map(texts).len() == texts.len(),
    decreases texts.len(),
{
    if texts.len() == 0 {
        assert(spec_db_map(texts).dom() =~= Set::<Seq<char>>::empty());
    } else {
        let rest = texts.drop_last();
        assert(all_parse(rest)) by {
            assert(forall|j: int| 0 <= j < rest.len() ==> rest[j] == texts[j]);
        }
        lemma_package_count(rest);
        lemma_db_map_dom(rest);
        let p = spec_parse_package(texts.last())->Some_0;
        assert(!spec_db_map(rest).contains_key(p.name)) by {
            if spec_db_map(rest).contains_key(p.name) {
                let j = choose|j: int|
                    0 <= j < rest.len() && spec_parse_package(rest[j])->Some_0.name == p.name;
                assert(rest[j] == texts[j]);
                assert(spec_parse_package(texts[texts.len() - 1])->Some_0.name == p.name);
            }
        };
        assert(spec_db_map(texts) == spec_db_map(rest).insert(p.name, p));
        assert(spec_db_map(texts).dom() =~= spec_db_map(rest).dom().insert(p.name));
    }
}

/// Two descriptor entries resolving to the same name leave exactly one
/// package under that name: the record of the last entry that resolves to
/// it.
pub proof fn lemma_last_write_wins(texts: Seq<Seq<u8>>, j: int)
    requires
        all_parse(texts),
        0 <= j < texts.len(),
        forall|t: int|
            j < t < texts.len() ==> spec_parse_package(#[trigger] texts[t])->Some_0.name
                != spec_parse_package(texts[j])->Some_0.name,
    ensures
        spec_db_map(texts).contains_key(spec_parse_package(texts[j])->Some_0.name),
        spec_db_map(texts)[spec_parse_package(texts[j])->Some_0.name] == spec_parse_package(
            texts[j],
        )->Some_0,
    decreases texts.len(),
{
    let p = spec_parse_package(texts[j])->Some_0;
    let rest = texts.drop_last();
    assert(all_parse(rest)) by {
        assert(forall|t: int| 0 <= t < rest.len() ==> rest[t] == texts[t]);
    }
    if j == texts.len() - 1 {
        assert(spec_db_map(texts) == spec_db_map(rest).insert(p.name, p));
    } else {
        assert(rest[j] == texts[j]);
        lemma_last_write_wins(rest, j);
        let q = spec_parse_package(texts.last())->Some_0;
        assert(q.name != p.name);
        assert(spec_db_map(texts) == spec_db_map(rest).insert(q.name, q));
    }
}

} // verus!
