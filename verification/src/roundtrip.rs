//! The round-trip law.
//!
//! Extracting what a build wrote reproduces the tree: every file of every
//! source comes back under its archive name, byte for byte, with its
//! permission bits preserved in their low nine bits; and every directory a
//! source contributed is recreated.  The build side is `build_plan` and
//! the codec's correspondence; the extract side is the extraction plan.

use vstd::prelude::*;

use crate::builder::{
    build_ok, build_plan, dedup_entries, dedup_from, dir_block, dir_candidates, dir_skip,
    file_entries_of, lemma_build_plan_shaped, lemma_sort_entries_elems, plan_entry_shaped,
    sort_entries, source_plan, top_entry, walked_dir_name, walked_file_name, wf_sources,
};
use crate::entries::{EntryModel, PlannedModel, SourceModel, WalkedModel, entries_correspond};
use crate::extract::{
    ExtractedFileModel, extract_dirs, extract_files, lemma_extract_plan_safe,
};
use crate::names::{final_component, is_dir_name};

verus! {

/// The extraction plan materializes a file of this name, with exactly
/// these bytes, and with permission bits agreeing on the low nine bits.
pub open spec fn extract_has_file(
    files: Seq<ExtractedFileModel>,
    name: Seq<char>,
    content: Seq<u8>,
    mode: u32,
) -> bool {
    exists|j: int|
        0 <= j < files.len() && (#[trigger] files[j]).rel_path == name && files[j].content
            == content && (files[j].mode matches Some(m) && (m & 0o777u32) == (mode & 0o777u32))
}

/// Whatever one source plans, the whole build plans.
proof fn lemma_build_plan_member(sources: Seq<SourceModel>, k: int)
    requires
        0 <= k < sources.len(),
    ensures
        forall|y: PlannedModel|
            #[trigger] source_plan(sources[k]).contains(y) ==> build_plan(sources).contains(y),
    decreases sources.len(),
{
    let a = build_plan(sources.drop_last());
    let b = source_plan(sources.last());
    if k == sources.len() - 1 {
        assert forall|y: PlannedModel| #[trigger]
            source_plan(sources[k]).contains(y) implies build_plan(sources).contains(y) by {
            assert(sources[k] == sources.last());
            let j = choose|j: int| 0 <= j < b.len() && b[j] == y;
            assert(build_plan(sources)[a.len() + j] == y);
        }
    } else {
        lemma_build_plan_member(sources.drop_last(), k);
        assert(sources.drop_last()[k] == sources[k]);
        assert forall|y: PlannedModel| #[trigger]
            source_plan(sources[k]).contains(y) implies build_plan(sources).contains(y) by {
            assert(a.contains(y));
            let j = choose|j: int| 0 <= j < a.len() && a[j] == y;
            assert(build_plan(sources)[j] == y);
        }
    }
}

/// A walked file's entry stands among the file entries of its walk.
proof fn lemma_file_entries_member(d: Option<Seq<char>>, ws: Seq<WalkedModel>, t: int)
    requires
        0 <= t < ws.len(),
        !ws[t].is_dir,
        ws[t].rel_path.len() > 0,
    ensures
        file_entries_of(d, ws).contains(
            PlannedModel {
                name: walked_file_name(d, ws[t]),
                is_dir: false,
                mode: ws[t].mode,
                content: ws[t].content,
            },
        ),
    decreases ws.len(),
{
    let pe = PlannedModel {
        name: walked_file_name(d, ws[t]),
        is_dir: false,
        mode: ws[t].mode,
        content: ws[t].content,
    };
    let prior = file_entries_of(d, ws.drop_last());
    if t == ws.len() - 1 {
        assert(ws[t] == ws.last());
        assert(file_entries_of(d, ws)[prior.len() as int] == pe);
    } else {
        assert(ws.drop_last()[t] == ws[t]);
        lemma_file_entries_member(d, ws.drop_last(), t);
        let j = choose|j: int| 0 <= j < prior.len() && prior[j] == pe;
        assert(file_entries_of(d, ws)[j] == pe);
    }
}

/// A walked directory's candidate stands among the candidates of its walk.
proof fn lemma_dir_candidates_member(d: Option<Seq<char>>, ws: Seq<WalkedModel>, t: int)
    requires
        0 <= t < ws.len(),
        ws[t].is_dir,
        ws[t].rel_path.len() > 0,
        !dir_skip(d, walked_dir_name(d, ws[t])),
    ensures
        exists|i: int|
            0 <= i < dir_candidates(d, ws).len() && (#[trigger] dir_candidates(d, ws)[i]).name
                == walked_dir_name(d, ws[t]),
    decreases ws.len(),
{
    let prior = dir_candidates(d, ws.drop_last());
    if t == ws.len() - 1 {
        assert(ws[t] == ws.last());
        assert(dir_candidates(d, ws)[prior.len() as int].name == walked_dir_name(d, ws[t]));
    } else {
        assert(ws.drop_last()[t] == ws[t]);
        lemma_dir_candidates_member(d, ws.drop_last(), t);
        let j = choose|j: int|
            0 <= j < prior.len() && (#[trigger] prior[j]).name == walked_dir_name(d, ws[t]);
        assert(dir_candidates(d, ws)[j].name == walked_dir_name(d, ws[t]));
    }
}

/// Deduplication keeps every name other than the one last kept.
proof fn lemma_dedup_from_has_name(s: Seq<PlannedModel>, last: Seq<char>, nm: Seq<char>)
    requires
        nm != last,
        exists|i: int| 0 <= i < s.len() && (#[trigger] s[i]).name == nm,
    ensures
        exists|j: int|
            0 <= j < dedup_from(s, last).len() && (#[trigger] dedup_from(s, last)[j]).name == nm,
    decreases s.len(),
{
    let i = choose|i: int| 0 <= i < s.len() && (#[trigger] s[i]).name == nm;
    if s.first().name == last {
        assert(i != 0);
        assert(s.drop_first()[i - 1] == s[i]);
        lemma_dedup_from_has_name(s.drop_first(), last, nm);
        let j = choose|j: int|
            0 <= j < dedup_from(s.drop_first(), last).len() && (#[trigger] dedup_from(
                s.drop_first(),
                last,
            )[j]).name == nm;
        assert(dedup_from(s, last)[j].name == nm);
    } else {
        let r = seq![s.first()] + dedup_from(s.drop_first(), s.first().name);
        assert(dedup_from(s, last) == r);
        if nm == s.first().name {
            assert(dedup_from(s, last)[0].name == nm);
        } else {
            assert(i != 0);
            assert(s.drop_first()[i - 1] == s[i]);
            lemma_dedup_from_has_name(s.drop_first(), s.first().name, nm);
            let j = choose|j: int|
                0 <= j < dedup_from(s.drop_first(), s.first().name).len() && (#[trigger] dedup_from(
                    s.drop_first(),
                    s.first().name,
                )[j]).name == nm;
            assert(dedup_from(s, last)[j + 1].name == nm);
        }
    }
}

/// Deduplication keeps every name.
proof fn lemma_dedup_entries_has_name(s: Seq<PlannedModel>, nm: Seq<char>)
    requires
        exists|i: int| 0 <= i < s.len() && (#[trigger] s[i]).name == nm,
    ensures
        exists|j: int|
            0 <= j < dedup_entries(s).len() && (#[trigger] dedup_entries(s)[j]).name == nm,
{
    let i = choose|i: int| 0 <= i < s.len() && (#[trigger] s[i]).name == nm;
    let r = seq![s.first()] + dedup_from(s.drop_first(), s.first().name);
    assert(dedup_entries(s) == r);
    if nm == s.first().name {
        assert(dedup_entries(s)[0].name == nm);
    } else {
        assert(i != 0);
        assert(s.drop_first()[i - 1] == s[i]);
        lemma_dedup_from_has_name(s.drop_first(), s.first().name, nm);
        let j = choose|j: int|
            0 <= j < dedup_from(s.drop_first(), s.first().name).len() && (#[trigger] dedup_from(
                s.drop_first(),
                s.first().name,
            )[j]).name == nm;
        assert(dedup_entries(s)[j + 1].name == nm);
    }
}

/// The directory block keeps every candidate name.
proof fn lemma_dir_block_has_name(d: Option<Seq<char>>, ws: Seq<WalkedModel>, nm: Seq<char>)
    requires
        exists|i: int|
            0 <= i < dir_candidates(d, ws).len() && (#[trigger] dir_candidates(d, ws)[i]).name
                == nm,
    ensures
        exists|j: int|
            0 <= j < dir_block(d, ws).len() && (#[trigger] dir_block(d, ws)[j]).name == nm,
{
    let c = dir_candidates(d, ws);
    let i = choose|i: int| 0 <= i < c.len() && (#[trigger] c[i]).name == nm;
    lemma_sort_entries_elems(c);
    assert(c.contains(c[i]));
    assert(sort_entries(c).contains(c[i]));
    let m = choose|m: int| 0 <= m < sort_entries(c).len() && sort_entries(c)[m] == c[i];
    assert(sort_entries(c)[m].name == nm);
    lemma_dedup_entries_has_name(sort_entries(c), nm);
    let j = choose|j: int|
        0 <= j < dedup_entries(sort_entries(c)).len() && (#[trigger] dedup_entries(
            sort_entries(c),
        )[j]).name == nm;
    assert(dir_block(d, ws)[j].name == nm);
}

/// A planned entry of this name reaches the decoded archive at some index.
proof fn lemma_plan_name_extracted_dir(
    sources: Seq<SourceModel>,
    es: Seq<EntryModel>,
    pe: PlannedModel,
)
    requires
        build_ok(sources),
        wf_sources(sources),
        entries_correspond(build_plan(sources), es),
        build_plan(sources).contains(pe),
        is_dir_name(pe.name),
    ensures
        extract_dirs(es).contains(pe.name),
{
    let plan = build_plan(sources);
    let m = choose|m: int| 0 <= m < plan.len() && plan[m] == pe;
    lemma_build_plan_shaped(sources);
    assert(plan_entry_shaped(plan[m]));
    assert(es[m].name == pe.name);
    lemma_extract_plan_safe(es);
}

/// A planned file entry is materialized by the extraction plan.
proof fn lemma_plan_entry_extracted_file(
    sources: Seq<SourceModel>,
    es: Seq<EntryModel>,
    pe: PlannedModel,
)
    requires
        build_ok(sources),
        wf_sources(sources),
        entries_correspond(build_plan(sources), es),
        build_plan(sources).contains(pe),
        !is_dir_name(pe.name),
    ensures
        extract_has_file(extract_files(es), pe.name, pe.content, pe.mode),
{
    let plan = build_plan(sources);
    let m = choose|m: int| 0 <= m < plan.len() && plan[m] == pe;
    lemma_build_plan_shaped(sources);
    assert(plan_entry_shaped(plan[m]));
    assert(es[m].name == pe.name && es[m].content == pe.content);
    assert(es[m].mode matches Some(mm) && (mm & 0o777u32) == (pe.mode & 0o777u32));
    lemma_extract_plan_safe(es);
    let j = choose|j: int|
        0 <= j < extract_files(es).len() && (#[trigger] extract_files(es)[j]).rel_path
            == es[m].name && extract_files(es)[j].content == es[m].content && extract_files(
            es,
        )[j].mode == es[m].mode;
    assert(extract_files(es)[j].rel_path == pe.name);
}

/// Round-trip, single files: a file source of a well-formed, buildable
/// list comes back from extraction under its display name, byte for byte,
/// with its permission bits preserved in their low nine bits.
pub proof fn lemma_round_trip_file(sources: Seq<SourceModel>, es: Seq<EntryModel>, k: int)
    requires
        build_ok(sources),
        wf_sources(sources),
        entries_correspond(build_plan(sources), es),
        0 <= k < sources.len(),
    ensures
        sources[k] matches SourceModel::SingleFile { path, mode, content } ==> extract_has_file(
            extract_files(es),
            final_component(path).unwrap(),
            content,
            mode,
        ),
{
    match sources[k] {
        SourceModel::SingleFile { path, mode, content } => {
            let dd = final_component(path).unwrap();
            let pe = PlannedModel { name: dd, is_dir: false, mode, content };
            assert(source_plan(sources[k])[0] == pe);
            assert(source_plan(sources[k]).contains(pe));
            lemma_build_plan_member(sources, k);
            assert(build_plan(sources).contains(pe));
            assert(!is_dir_name(pe.name)) by {
                lemma_build_plan_shaped(sources);
                let plan = build_plan(sources);
                let m = choose|m: int| 0 <= m < plan.len() && plan[m] == pe;
                assert(plan_entry_shaped(plan[m]));
            }
            lemma_plan_entry_extracted_file(sources, es, pe);
        },
        _ => {},
    }
}

/// Round-trip, directory trees: every directory a tree source contributed
/// — its own entry when it has a name, and every walked subdirectory — is
/// recreated by extraction, and every walked file comes back under its
/// archive name, byte for byte, with its permission bits preserved in
/// their low nine bits.
pub proof fn lemma_round_trip_tree(sources: Seq<SourceModel>, es: Seq<EntryModel>, k: int, t: int)
    requires
        build_ok(sources),
        wf_sources(sources),
        entries_correspond(build_plan(sources), es),
        0 <= k < sources.len(),
    ensures
        sources[k] matches SourceModel::DirectoryTree { path, .. } ==> (final_component(path)
            matches Some(dd) ==> extract_dirs(es).contains(dd + seq!['/'])),
        sources[k] matches SourceModel::DirectoryTree { path, entries, .. } ==> (0 <= t
            < entries.len() && !entries[t].is_dir && entries[t].rel_path.len() > 0
            ==> extract_has_file(
            extract_files(es),
            walked_file_name(final_component(path), entries[t]),
            entries[t].content,
            entries[t].mode,
        )),
        sources[k] matches SourceModel::DirectoryTree { path, entries, .. } ==> (0 <= t
            < entries.len() && entries[t].is_dir && entries[t].rel_path.len() > 0 && !dir_skip(
            final_component(path),
            walked_dir_name(final_component(path), entries[t]),
        ) ==> extract_dirs(es).contains(walked_dir_name(final_component(path), entries[t]))),
{
    match sources[k] {
        SourceModel::DirectoryTree { path, mode, entries } => {
        let d = final_component(path);
        let te = top_entry(d, mode);
        let db = dir_block(d, entries);
        let fe = file_entries_of(d, entries);
        let plan_k = source_plan(sources[k]);
        lemma_build_plan_member(sources, k);
        // the top-level entry
        match d {
            Option::Some(dd) => {
                let pe = te[0];
                assert(plan_k[0] == pe);
                assert(plan_k.contains(pe));
                assert(build_plan(sources).contains(pe));
                assert(is_dir_name(pe.name)) by {
                    assert(pe.name.len() == dd.len() + 1);
                    assert(pe.name.last() == '/');
                }
                lemma_plan_name_extracted_dir(sources, es, pe);
            },
            Option::None => {},
        }
        if 0 <= t < entries.len() && entries[t].rel_path.len() > 0 {
            if !entries[t].is_dir {
                let pe = PlannedModel {
                    name: walked_file_name(d, entries[t]),
                    is_dir: false,
                    mode: entries[t].mode,
                    content: entries[t].content,
                };
                lemma_file_entries_member(d, entries, t);
                assert(fe.contains(pe));
                let j = choose|j: int| 0 <= j < fe.len() && fe[j] == pe;
                assert(plan_k[te.len() + db.len() + j] == pe);
                assert(plan_k.contains(pe));
                assert(build_plan(sources).contains(pe));
                assert(!is_dir_name(pe.name)) by {
                    lemma_build_plan_shaped(sources);
                    let plan = build_plan(sources);
                    let m = choose|m: int| 0 <= m < plan.len() && plan[m] == pe;
                    assert(plan_entry_shaped(plan[m]));
                }
                lemma_plan_entry_extracted_file(sources, es, pe);
            } else if !dir_skip(d, walked_dir_name(d, entries[t])) {
                let nm = walked_dir_name(d, entries[t]);
                lemma_dir_candidates_member(d, entries, t);
                lemma_dir_block_has_name(d, entries, nm);
                let j = choose|j: int|
                    0 <= j < db.len() && (#[trigger] db[j]).name == nm;
                assert(plan_k[te.len() + j] == db[j]);
                assert(plan_k.contains(db[j]));
                assert(build_plan(sources).contains(db[j]));
                assert(is_dir_name(nm));
                lemma_plan_name_extracted_dir(sources, es, db[j]);
            }
        }
        },
        _ => {},
    }
}

} // verus!
