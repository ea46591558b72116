//! The archive assembly pipeline.
//!
//! A build turns an ordered list of sources — single files, or directory
//! trees with their walked descendants — into a write plan: the exact
//! sequence of container entries, in a deterministic order in which a
//! directory always precedes its contents, and then writes that plan
//! through the container codec into an in-memory archive.

use vstd::prelude::*;
use vstd::string::StringExecFns;

use crate::codec::{
    ContainerWriter, add_file_to_zip_with_permissions, archive_entries, writer_add_directory,
    writer_entries, writer_finish, writer_new, zip_error_text,
};
use crate::compress::Compression;
use crate::entries::{
    PlannedEntry, PlannedModel, SourceModel, SourceSpec, WalkedEntry, WalkedModel, copy_bytes,
    entries_correspond,
};
use crate::errors::ArchiveError;
use crate::names::{
    archive_name, archive_name_of, comp_parent, dir_name_of, final_component, final_component_of,
    is_dir_name, lemma_lex_antisym, lemma_lex_total, lemma_lex_trans, lex_le, lex_leq, lex_lt,
    safe_entry_path, split_slash, str_eq, with_dir_slash,
};

verus! {

// ---------------------------------------------------------------------------
// What a build writes, as a function of its sources
// ---------------------------------------------------------------------------

/// The path a source was given as.
pub open spec fn source_path(s: SourceModel) -> Seq<char> {
    match s {
        SourceModel::SingleFile { path, .. } => path,
        SourceModel::DirectoryTree { path, .. } => path,
    }
}

/// The display name of a source: the final meaningful component of its
/// path, under which its contents appear in the archive.
pub open spec fn source_display(s: SourceModel) -> Option<Seq<char>> {
    final_component(source_path(s))
}

/// A single-file source must have a display name; a directory tree without
/// one simply spills its contents at archive root.
pub open spec fn source_ok(s: SourceModel) -> bool {
    match s {
        SourceModel::SingleFile { .. } => source_display(s) is Some,
        SourceModel::DirectoryTree { .. } => true,
    }
}

/// Every source can be named.
pub open spec fn build_ok(sources: Seq<SourceModel>) -> bool {
    forall|i: int| 0 <= i < sources.len() ==> source_ok(#[trigger] sources[i])
}

/// The archive name of a walked file.
pub open spec fn walked_file_name(d: Option<Seq<char>>, w: WalkedModel) -> Seq<char> {
    archive_name(d, w.rel_path)
}

/// The archive name of a walked directory: `/`-terminated.
pub open spec fn walked_dir_name(d: Option<Seq<char>>, w: WalkedModel) -> Seq<char> {
    with_dir_slash(archive_name(d, w.rel_path))
}

/// Directory names never written: the top-level entry itself (written
/// separately) and the degenerate names of a tree's own root.
pub open spec fn dir_skip(d: Option<Seq<char>>, name: Seq<char>) -> bool {
    match d {
        Option::Some(dd) => name == dd + seq!['/'],
        Option::None => name == seq!['/'] || name == seq!['.', '/'],
    }
}

/// The directory entries a walk contributes, in walk order, named and
/// `/`-terminated, before sorting and deduplication.
pub open spec fn dir_candidates(d: Option<Seq<char>>, ws: Seq<WalkedModel>) -> Seq<PlannedModel>
    decreases ws.len(),
{
    if ws.len() == 0 {
        Seq::empty()
    } else {
        let prior = dir_candidates(d, ws.drop_last());
        let w = ws.last();
        if w.is_dir && w.rel_path.len() > 0 && !dir_skip(d, walked_dir_name(d, w)) {
            prior.push(
                PlannedModel {
                    name: walked_dir_name(d, w),
                    is_dir: true,
                    mode: w.mode,
                    content: Seq::empty(),
                },
            )
        } else {
            prior
        }
    }
}

/// The file entries a walk contributes, in walk order.
pub open spec fn file_entries_of(d: Option<Seq<char>>, ws: Seq<WalkedModel>) -> Seq<PlannedModel>
    decreases ws.len(),
{
    if ws.len() == 0 {
        Seq::empty()
    } else {
        let prior = file_entries_of(d, ws.drop_last());
        let w = ws.last();
        if !w.is_dir && w.rel_path.len() > 0 {
            prior.push(
                PlannedModel {
                    name: walked_file_name(d, w),
                    is_dir: false,
                    mode: w.mode,
                    content: w.content,
                },
            )
        } else {
            prior
        }
    }
}

/// Inserts `x` into a name-sorted sequence, after any entry of equal name.
pub open spec fn insert_sorted(x: PlannedModel, s: Seq<PlannedModel>) -> Seq<PlannedModel>
    decreases s.len(),
{
    if s.len() == 0 {
        seq![x]
    } else if lex_lt(x.name, s.first().name) {
        seq![x] + s
    } else {
        seq![s.first()] + insert_sorted(x, s.drop_first())
    }
}

/// Sorts by name, lexicographically and stably.
pub open spec fn sort_entries(s: Seq<PlannedModel>) -> Seq<PlannedModel>
    decreases s.len(),
{
    if s.len() == 0 {
        s
    } else {
        insert_sorted(s.last(), sort_entries(s.drop_last()))
    }
}

/// Drops every entry whose name equals the last name kept.
pub open spec fn dedup_from(s: Seq<PlannedModel>, last: Seq<char>) -> Seq<PlannedModel>
    decreases s.len(),
{
    if s.len() == 0 {
        s
    } else if s.first().name == last {
        dedup_from(s.drop_first(), last)
    } else {
        seq![s.first()] + dedup_from(s.drop_first(), s.first().name)
    }
}

/// Keeps the first entry of every run of equal names.
pub open spec fn dedup_entries(s: Seq<PlannedModel>) -> Seq<PlannedModel> {
    if s.len() == 0 {
        s
    } else {
        seq![s.first()] + dedup_from(s.drop_first(), s.first().name)
    }
}

/// The directory block of a tree source: its directory candidates sorted
/// lexicographically and deduplicated, so that the order is deterministic
/// whatever order the walk produced.
pub open spec fn dir_block(d: Option<Seq<char>>, ws: Seq<WalkedModel>) -> Seq<PlannedModel> {
    dedup_entries(sort_entries(dir_candidates(d, ws)))
}

/// The top-level directory entry of a tree source, when it has a name.
pub open spec fn top_entry(d: Option<Seq<char>>, mode: u32) -> Seq<PlannedModel> {
    match d {
        Option::Some(dd) => seq![
            PlannedModel { name: dd + seq!['/'], is_dir: true, mode, content: Seq::empty() },
        ],
        Option::None => Seq::empty(),
    }
}

/// Everything one source contributes to the archive, in write order: for a
/// file, its one entry; for a tree, its own entry if it has a name, then
/// its directories, then its files.
pub open spec fn source_plan(s: SourceModel) -> Seq<PlannedModel> {
    match s {
        SourceModel::SingleFile { path, mode, content } => seq![
            PlannedModel {
                name: final_component(path).unwrap(),
                is_dir: false,
                mode,
                content,
            },
        ],
        SourceModel::DirectoryTree { path, mode, entries } => {
            let d = final_component(path);
            top_entry(d, mode) + dir_block(d, entries) + file_entries_of(d, entries)
        },
    }
}

/// The whole write plan: each source's contribution, in the order the
/// sources were given.
pub open spec fn build_plan(sources: Seq<SourceModel>) -> Seq<PlannedModel>
    decreases sources.len(),
{
    if sources.len() == 0 {
        Seq::empty()
    } else {
        build_plan(sources.drop_last()) + source_plan(sources.last())
    }
}

/// Every directory entry of a plan carries a `/`-terminated name and no
/// contents.
pub open spec fn plan_dirs_slashed(ps: Seq<PlannedModel>) -> bool {
    forall|i: int|
        0 <= i < ps.len() && (#[trigger] ps[i]).is_dir ==> is_dir_name(ps[i].name)
            && ps[i].content == Seq::<u8>::empty()
}

// ---------------------------------------------------------------------------
// Executable planning
// ---------------------------------------------------------------------------

/// Copies a planned entry.
fn copy_planned(e: &PlannedEntry) -> (r: PlannedEntry)
    ensures
        r@ == e@,
{
    PlannedEntry {
        name: e.name.clone(),
        is_dir: e.is_dir,
        mode: e.mode,
        content: copy_bytes(&e.content),
    }
}

/// Decides whether a computed directory name is excluded from the
/// directory block.
fn dir_skip_of(d: &Option<String>, name: &str) -> (r: bool)
    ensures
        r == dir_skip(d.deep_view(), name@),
{
    proof {
        reveal_strlit("/");
        reveal_strlit("./");
        assert("/"@ =~= seq!['/']);
        assert("./"@ =~= seq!['.', '/']);
    }
    match d {
        Option::Some(dd) => {
            let mut top = dd.clone();
            top.append("/");
            proof {
                assert(top@ == dd@ + seq!['/']);
            }
            str_eq(name, top.as_str())
        },
        Option::None => str_eq(name, "/") || str_eq(name, "./"),
    }
}

/// Collects the named, `/`-terminated directory entries of a walk, in walk
/// order.
fn collect_dir_candidates(d: &Option<String>, entries: &Vec<WalkedEntry>) -> (r: Vec<PlannedEntry>)
    ensures
        r.deep_view() == dir_candidates(d.deep_view(), entries.deep_view()),
{
    let ghost dv = d.deep_view();
    let ghost ev = entries.deep_view();
    let n: usize = entries.len();
    let mut out: Vec<PlannedEntry> = Vec::new();
    let mut i: usize = 0;
    proof {
        assert(ev.subrange(0, 0) =~= Seq::<WalkedModel>::empty());
    }
    while i < n
        invariant
            n == entries.len(),
            dv == d.deep_view(),
            ev == entries.deep_view(),
            ev.len() == n,
            i <= n,
            out.deep_view() == dir_candidates(dv, ev.subrange(0, i as int)),
        decreases n - i,
    {
        proof {
            assert(ev.subrange(0, i + 1).drop_last() =~= ev.subrange(0, i as int));
            assert(ev.subrange(0, i + 1).last() == ev[i as int]);
            assert(ev[i as int] == entries@[i as int]@);
        }
        let e = &entries[i];
        if e.is_dir && e.rel_path.unicode_len() > 0 {
            let joined = archive_name_of(d, e.rel_path.as_str());
            let name = dir_name_of(joined.as_str());
            if !dir_skip_of(d, name.as_str()) {
                let ghost pre = out.deep_view();
                out.push(
                    PlannedEntry { name, is_dir: true, mode: e.mode, content: Vec::new() },
                );
                proof {
                    assert(out.deep_view() =~= pre.push(
                        PlannedModel {
                            name: walked_dir_name(dv, ev[i as int]),
                            is_dir: true,
                            mode: ev[i as int].mode,
                            content: Seq::empty(),
                        },
                    ));
                }
            }
        }
        i = i + 1;
    }
    proof {
        assert(ev.subrange(0, n as int) =~= ev);
    }
    out
}

/// Collects the named file entries of a walk, in walk order.
fn collect_file_entries(d: &Option<String>, entries: &Vec<WalkedEntry>) -> (r: Vec<PlannedEntry>)
    ensures
        r.deep_view() == file_entries_of(d.deep_view(), entries.deep_view()),
{
    let ghost dv = d.deep_view();
    let ghost ev = entries.deep_view();
    let n: usize = entries.len();
    let mut out: Vec<PlannedEntry> = Vec::new();
    let mut i: usize = 0;
    proof {
        assert(ev.subrange(0, 0) =~= Seq::<WalkedModel>::empty());
    }
    while i < n
        invariant
            n == entries.len(),
            dv == d.deep_view(),
            ev == entries.deep_view(),
            ev.len() == n,
            i <= n,
            out.deep_view() == file_entries_of(dv, ev.subrange(0, i as int)),
        decreases n - i,
    {
        proof {
            assert(ev.subrange(0, i + 1).drop_last() =~= ev.subrange(0, i as int));
            assert(ev.subrange(0, i + 1).last() == ev[i as int]);
            assert(ev[i as int] == entries@[i as int]@);
        }
        let e = &entries[i];
        if !e.is_dir && e.rel_path.unicode_len() > 0 {
            let name = archive_name_of(d, e.rel_path.as_str());
            let ghost pre = out.deep_view();
            out.push(
                PlannedEntry { name, is_dir: false, mode: e.mode, content: copy_bytes(&e.content) },
            );
            proof {
                assert(out.deep_view() =~= pre.push(
                    PlannedModel {
                        name: walked_file_name(dv, ev[i as int]),
                        is_dir: false,
                        mode: ev[i as int].mode,
                        content: ev[i as int].content,
                    },
                ));
            }
        }
        i = i + 1;
    }
    proof {
        assert(ev.subrange(0, n as int) =~= ev);
    }
    out
}

// ---------------------------------------------------------------------------
// Sorting and deduplication of the directory block
// ---------------------------------------------------------------------------

proof fn lemma_insert_sorted_split(x: PlannedModel, s: Seq<PlannedModel>, idx: int)
    requires
        0 <= idx <= s.len(),
        forall|j: int| 0 <= j < idx ==> !lex_lt(x.name, (#[trigger] s[j]).name),
        idx < s.len() ==> lex_lt(x.name, s[idx].name),
    ensures
        insert_sorted(x, s) == s.subrange(0, idx) + seq![x] + s.subrange(idx, s.len() as int),
    decreases idx,
{
    if idx == 0 {
        if s.len() == 0 {
            assert(insert_sorted(x, s) =~= s.subrange(0, 0) + seq![x] + s.subrange(0, 0));
        } else {
            assert(lex_lt(x.name, s.first().name));
            assert(insert_sorted(x, s) =~= s.subrange(0, 0) + seq![x] + s.subrange(
                0,
                s.len() as int,
            ));
        }
    } else {
        assert(!lex_lt(x.name, s[0].name));
        let rest = s.drop_first();
        assert(forall|j: int| 0 <= j < idx - 1 ==> !lex_lt(x.name, (#[trigger] rest[j]).name));
        lemma_insert_sorted_split(x, rest, idx - 1);
        assert(rest.subrange(0, idx - 1) =~= s.subrange(1, idx));
        assert(rest.subrange(idx - 1, rest.len() as int) =~= s.subrange(idx, s.len() as int));
        assert(seq![s.first()] + (s.subrange(1, idx) + seq![x] + s.subrange(
            idx,
            s.len() as int,
        )) =~= s.subrange(0, idx) + seq![x] + s.subrange(idx, s.len() as int));
    }
}

/// Finds the position before which `x` is inserted to keep `v` sorted:
/// after every entry whose name is not greater, so insertion is stable.
fn sorted_insert_pos(v: &Vec<PlannedEntry>, x: &PlannedEntry) -> (idx: usize)
    ensures
        idx <= v.len(),
        forall|j: int| 0 <= j < idx ==> !lex_lt(x@.name, (#[trigger] v.deep_view()[j]).name),
        idx < v.len() ==> lex_lt(x@.name, v.deep_view()[idx as int].name),
{
    let n: usize = v.len();
    let mut idx: usize = 0;
    while idx < n
        invariant
            n == v.len(),
            v.deep_view().len() == n,
            idx <= n,
            forall|j: int| 0 <= j < idx ==> !lex_lt(x@.name, (#[trigger] v.deep_view()[j]).name),
        decreases n - idx,
    {
        let below = lex_le(x.name.as_str(), v[idx].name.as_str()) && !str_eq(
            x.name.as_str(),
            v[idx].name.as_str(),
        );
        proof {
            assert(v.deep_view()[idx as int].name == v@[idx as int]@.name);
        }
        if below {
            return idx;
        }
        idx = idx + 1;
    }
    idx
}

/// Inserts one entry into a name-sorted vector, stably.
fn insert_entry_sorted(v: &mut Vec<PlannedEntry>, x: PlannedEntry)
    ensures
        final(v).deep_view() == insert_sorted(x@, old(v).deep_view()),
{
    let idx = sorted_insert_pos(v, &x);
    let ghost xm = x@;
    let ghost sv = v.deep_view();
    v.insert(idx, x);
    proof {
        lemma_insert_sorted_split(xm, sv, idx as int);
        assert(v.deep_view() =~= sv.subrange(0, idx as int) + seq![xm] + sv.subrange(
            idx as int,
            sv.len() as int,
        ));
    }
}

/// Sorts the directory block by name, lexicographically and stably.
fn sort_dir_entries(v: &Vec<PlannedEntry>) -> (r: Vec<PlannedEntry>)
    ensures
        r.deep_view() == sort_entries(v.deep_view()),
{
    let ghost sv = v.deep_view();
    let n: usize = v.len();
    let mut out: Vec<PlannedEntry> = Vec::new();
    let mut i: usize = 0;
    proof {
        assert(sv.subrange(0, 0) =~= Seq::<PlannedModel>::empty());
    }
    while i < n
        invariant
            n == v.len(),
            sv == v.deep_view(),
            sv.len() == n,
            i <= n,
            out.deep_view() == sort_entries(sv.subrange(0, i as int)),
        decreases n - i,
    {
        proof {
            assert(sv.subrange(0, i + 1).drop_last() =~= sv.subrange(0, i as int));
            assert(sv.subrange(0, i + 1).last() == sv[i as int]);
            assert(sv[i as int] == v@[i as int]@);
        }
        insert_entry_sorted(&mut out, copy_planned(&v[i]));
        i = i + 1;
    }
    proof {
        assert(sv.subrange(0, n as int) =~= sv);
    }
    out
}

/// Deduplicates a name-sorted directory block, keeping the first entry of
/// every run of equal names.
fn dedup_dir_entries(v: &Vec<PlannedEntry>) -> (r: Vec<PlannedEntry>)
    ensures
        r.deep_view() == dedup_entries(v.deep_view()),
{
    let ghost sv = v.deep_view();
    let n: usize = v.len();
    let mut out: Vec<PlannedEntry> = Vec::new();
    if n == 0 {
        return out;
    }
    out.push(copy_planned(&v[0]));
    let mut i: usize = 1;
    proof {
        assert(sv.skip(1) =~= sv.drop_first());
        assert(out.deep_view() =~= seq![sv[0]]);
    }
    while i < n
        invariant
            n == v.len(),
            sv == v.deep_view(),
            sv.len() == n,
            1 <= i <= n,
            out.deep_view().len() >= 1,
            dedup_entries(sv) == out.deep_view() + dedup_from(
                sv.skip(i as int),
                out.deep_view().last().name,
            ),
        decreases n - i,
    {
        proof {
            assert(sv.skip(i as int).first() == sv[i as int]);
            assert(sv.skip(i as int).drop_first() =~= sv.skip(i + 1));
            assert(sv[i as int] == v@[i as int]@);
            assert(out.deep_view().last() == out@[out@.len() - 1]@);
        }
        let keep = !str_eq(v[i].name.as_str(), out[out.len() - 1].name.as_str());
        if keep {
            let ghost pre = out.deep_view();
            out.push(copy_planned(&v[i]));
            proof {
                assert(out.deep_view() =~= pre.push(sv[i as int]));
                assert(out.deep_view().last() == sv[i as int]);
                assert(pre + (seq![sv[i as int]] + dedup_from(
                    sv.skip(i + 1),
                    sv[i as int].name,
                )) =~= out.deep_view() + dedup_from(sv.skip(i + 1), sv[i as int].name));
            }
        }
        i = i + 1;
    }
    proof {
        assert(sv.skip(n as int).len() == 0);
        assert(out.deep_view() + Seq::<PlannedModel>::empty() =~= out.deep_view());
    }
    out
}

// ---------------------------------------------------------------------------
// Shape of the directory block
// ---------------------------------------------------------------------------

/// Every entry of `s` is a directory entry with a `/`-terminated name and
/// no contents.
pub open spec fn all_dir_shaped(s: Seq<PlannedModel>) -> bool {
    forall|i: int|
        0 <= i < s.len() ==> (#[trigger] s[i]).is_dir && is_dir_name(s[i].name)
            && s[i].content == Seq::<u8>::empty()
}

proof fn lemma_dir_candidates_shaped(d: Option<Seq<char>>, ws: Seq<WalkedModel>)
    ensures
        all_dir_shaped(dir_candidates(d, ws)),
    decreases ws.len(),
{
    if ws.len() > 0 {
        lemma_dir_candidates_shaped(d, ws.drop_last());
        let prior = dir_candidates(d, ws.drop_last());
        assert forall|i: int|
            0 <= i < dir_candidates(d, ws).len() implies (#[trigger] dir_candidates(d, ws)[i]).is_dir
            && is_dir_name(dir_candidates(d, ws)[i].name) && dir_candidates(d, ws)[i].content
            == Seq::<u8>::empty() by {
            if i < prior.len() {
                assert(dir_candidates(d, ws)[i] == prior[i]);
            } else {
                assert(dir_candidates(d, ws)[i].name == walked_dir_name(d, ws.last()));
            }
        }
    }
}

proof fn lemma_insert_sorted_shaped(x: PlannedModel, s: Seq<PlannedModel>)
    requires
        all_dir_shaped(s),
        x.is_dir,
        is_dir_name(x.name),
        x.content == Seq::<u8>::empty(),
    ensures
        all_dir_shaped(insert_sorted(x, s)),
    decreases s.len(),
{
    if s.len() == 0 {
    } else if lex_lt(x.name, s.first().name) {
        let r = seq![x] + s;
        assert forall|i: int| 0 <= i < r.len() implies (#[trigger] r[i]).is_dir && is_dir_name(
            r[i].name,
        ) && r[i].content == Seq::<u8>::empty() by {
            if i > 0 {
                assert(r[i] == s[i - 1]);
            }
        }
    } else {
        assert(all_dir_shaped(s.drop_first()));
        lemma_insert_sorted_shaped(x, s.drop_first());
        let t = insert_sorted(x, s.drop_first());
        let r = seq![s.first()] + t;
        assert forall|i: int| 0 <= i < r.len() implies (#[trigger] r[i]).is_dir && is_dir_name(
            r[i].name,
        ) && r[i].content == Seq::<u8>::empty() by {
            if i > 0 {
                assert(r[i] == t[i - 1]);
            } else {
                assert(r[0] == s[0]);
            }
        }
    }
}

proof fn lemma_sort_entries_shaped(s: Seq<PlannedModel>)
    requires
        all_dir_shaped(s),
    ensures
        all_dir_shaped(sort_entries(s)),
    decreases s.len(),
{
    if s.len() > 0 {
        assert(all_dir_shaped(s.drop_last()));
        lemma_sort_entries_shaped(s.drop_last());
        assert(s.last().is_dir && is_dir_name(s.last().name) && s.last().content == Seq::<
            u8,
        >::empty());
        lemma_insert_sorted_shaped(s.last(), sort_entries(s.drop_last()));
    }
}

proof fn lemma_dedup_from_shaped(s: Seq<PlannedModel>, last: Seq<char>)
    requires
        all_dir_shaped(s),
    ensures
        all_dir_shaped(dedup_from(s, last)),
    decreases s.len(),
{
    if s.len() > 0 {
        assert(all_dir_shaped(s.drop_first()));
        if s.first().name == last {
            lemma_dedup_from_shaped(s.drop_first(), last);
        } else {
            lemma_dedup_from_shaped(s.drop_first(), s.first().name);
            let t = dedup_from(s.drop_first(), s.first().name);
            let r = seq![s.first()] + t;
            assert forall|i: int| 0 <= i < r.len() implies (#[trigger] r[i]).is_dir && is_dir_name(
                r[i].name,
            ) && r[i].content == Seq::<u8>::empty() by {
                if i > 0 {
                    assert(r[i] == t[i - 1]);
                } else {
                    assert(r[0] == s[0]);
                }
            }
        }
    }
}

proof fn lemma_dir_block_shaped(d: Option<Seq<char>>, ws: Seq<WalkedModel>)
    ensures
        all_dir_shaped(dir_block(d, ws)),
{
    lemma_dir_candidates_shaped(d, ws);
    lemma_sort_entries_shaped(dir_candidates(d, ws));
    let sorted = sort_entries(dir_candidates(d, ws));
    if sorted.len() > 0 {
        assert(all_dir_shaped(sorted.drop_first()));
        lemma_dedup_from_shaped(sorted.drop_first(), sorted.first().name);
        let t = dedup_from(sorted.drop_first(), sorted.first().name);
        let r = seq![sorted.first()] + t;
        assert forall|i: int| 0 <= i < r.len() implies (#[trigger] r[i]).is_dir && is_dir_name(
            r[i].name,
        ) && r[i].content == Seq::<u8>::empty() by {
            if i > 0 {
                assert(r[i] == t[i - 1]);
            } else {
                assert(r[0] == sorted[0]);
            }
        }
    }
}

/// Every directory entry of a source's plan, and so of a whole build plan,
/// carries a `/`-terminated name.
proof fn lemma_source_plan_dirs_slashed(s: SourceModel)
    requires
        source_ok(s),
    ensures
        plan_dirs_slashed(source_plan(s)),
{
    match s {
        SourceModel::SingleFile { .. } => {
        },
        SourceModel::DirectoryTree { path, mode, entries } => {
            let d = final_component(path);
            crate::names::lemma_final_component_shape(path);
            lemma_dir_block_shaped(d, entries);
            let plan = source_plan(s);
            let te = top_entry(d, mode);
            let db = dir_block(d, entries);
            let fe = file_entries_of(d, entries);
            lemma_file_entries_not_dir(d, entries);
            assert forall|i: int| 0 <= i < plan.len() && (#[trigger] plan[i]).is_dir implies
                is_dir_name(plan[i].name) && plan[i].content == Seq::<u8>::empty() by {
                if i < te.len() {
                    assert(plan[i] == te[i]);
                    assert(te[0].name.last() == '/');
                } else if i < te.len() + db.len() {
                    assert(plan[i] == db[i - te.len()]);
                } else {
                    assert(plan[i] == fe[i - te.len() - db.len()]);
                }
            }
        },
    }
}

proof fn lemma_file_entries_not_dir(d: Option<Seq<char>>, ws: Seq<WalkedModel>)
    ensures
        forall|i: int|
            0 <= i < file_entries_of(d, ws).len() ==> !(#[trigger] file_entries_of(d, ws)[i]).is_dir,
    decreases ws.len(),
{
    if ws.len() > 0 {
        lemma_file_entries_not_dir(d, ws.drop_last());
        let prior = file_entries_of(d, ws.drop_last());
        assert forall|i: int| 0 <= i < file_entries_of(d, ws).len() implies !(
        #[trigger] file_entries_of(d, ws)[i]).is_dir by {
            if i < prior.len() {
                assert(file_entries_of(d, ws)[i] == prior[i]);
            }
        }
    }
}

/// Every directory entry a build plans carries a `/`-terminated name.
pub proof fn lemma_build_plan_dirs_slashed(sources: Seq<SourceModel>)
    requires
        build_ok(sources),
    ensures
        plan_dirs_slashed(build_plan(sources)),
    decreases sources.len(),
{
    if sources.len() > 0 {
        assert(build_ok(sources.drop_last())) by {
            assert(forall|i: int|
                0 <= i < sources.drop_last().len() ==> sources.drop_last()[i] == sources[i]);
        }
        lemma_build_plan_dirs_slashed(sources.drop_last());
        assert(source_ok(sources.last())) by {
            assert(sources[sources.len() - 1] == sources.last());
        }
        lemma_source_plan_dirs_slashed(sources.last());
        let a = build_plan(sources.drop_last());
        let b = source_plan(sources.last());
        assert forall|i: int|
            0 <= i < build_plan(sources).len() && (#[trigger] build_plan(sources)[i]).is_dir implies
            is_dir_name(build_plan(sources)[i].name) && build_plan(sources)[i].content == Seq::<
            u8,
        >::empty() by {
            if i < a.len() {
                assert(build_plan(sources)[i] == a[i]);
            } else {
                assert(build_plan(sources)[i] == b[i - a.len()]);
            }
        }
    }
}

// ---------------------------------------------------------------------------
// Order of the directory block
// ---------------------------------------------------------------------------

/// Names ascend weakly.
pub open spec fn sorted_names(s: Seq<PlannedModel>) -> bool {
    forall|a: int, b: int|
        0 <= a < b < s.len() ==> lex_leq((#[trigger] s[a]).name, (#[trigger] s[b]).name)
}

/// Names ascend strictly.
pub open spec fn strict_sorted_names(s: Seq<PlannedModel>) -> bool {
    forall|a: int, b: int|
        0 <= a < b < s.len() ==> lex_lt((#[trigger] s[a]).name, (#[trigger] s[b]).name)
}

proof fn lemma_insert_sorted_order(x: PlannedModel, s: Seq<PlannedModel>)
    requires
        sorted_names(s),
    ensures
        sorted_names(insert_sorted(x, s)),
    decreases s.len(),
{
    if s.len() == 0 {
    } else if lex_lt(x.name, s.first().name) {
        let r = seq![x] + s;
        assert forall|a: int, b: int| 0 <= a < b < r.len() implies lex_leq(
            (#[trigger] r[a]).name,
            (#[trigger] r[b]).name,
        ) by {
            if a == 0 {
                assert(r[a] == x);
                assert(r[b] == s[b - 1]);
                if b - 1 > 0 {
                    assert(lex_leq(s[0].name, s[b - 1].name));
                    lemma_lex_trans(x.name, s[0].name, s[b - 1].name);
                }
            } else {
                assert(r[a] == s[a - 1]);
                assert(r[b] == s[b - 1]);
            }
        }
    } else {
        assert(sorted_names(s.drop_first()));
        lemma_insert_sorted_order(x, s.drop_first());
        let t = insert_sorted(x, s.drop_first());
        let r = seq![s.first()] + t;
        // the head is at most x and at most every element of the tail
        lemma_lex_total(x.name, s.first().name);
        assert(lex_leq(s.first().name, x.name));
        assert forall|a: int, b: int| 0 <= a < b < r.len() implies lex_leq(
            (#[trigger] r[a]).name,
            (#[trigger] r[b]).name,
        ) by {
            if a == 0 {
                assert(r[b] == t[b - 1]);
                lemma_insert_sorted_elems(x, s.drop_first());
                assert(t.contains(t[b - 1]));
                if t[b - 1] == x {
                    assert(lex_leq(s.first().name, x.name));
                } else {
                    assert(s.drop_first().contains(t[b - 1]));
                    let k = choose|k: int|
                        0 <= k < s.drop_first().len() && s.drop_first()[k] == t[b - 1];
                    assert(s[k + 1] == t[b - 1]);
                    if k + 1 > 0 {
                        assert(lex_leq(s[0].name, s[k + 1].name));
                    }
                }
            } else {
                assert(r[a] == t[a - 1]);
                assert(r[b] == t[b - 1]);
            }
        }
    }
}

/// Inserting adds exactly `x` to the elements.
proof fn lemma_insert_sorted_elems(x: PlannedModel, s: Seq<PlannedModel>)
    ensures
        forall|y: PlannedModel|
            #[trigger] insert_sorted(x, s).contains(y) <==> (y == x || s.contains(y)),
        insert_sorted(x, s).len() == s.len() + 1,
    decreases s.len(),
{
    if s.len() == 0 {
        assert forall|y: PlannedModel| #[trigger]
            insert_sorted(x, s).contains(y) <==> (y == x || s.contains(y)) by {
            assert(insert_sorted(x, s) =~= seq![x]);
            if y == x {
                assert(insert_sorted(x, s)[0] == x);
            }
        }
    } else if lex_lt(x.name, s.first().name) {
        let r = seq![x] + s;
        assert forall|y: PlannedModel| #[trigger] r.contains(y) <==> (y == x || s.contains(y)) by {
            if r.contains(y) {
                let k = choose|k: int| 0 <= k < r.len() && r[k] == y;
                if k == 0 {
                    assert(y == x);
                } else {
                    assert(s[k - 1] == y);
                }
            }
            if y == x {
                assert(r[0] == y);
            }
            if s.contains(y) {
                let k = choose|k: int| 0 <= k < s.len() && s[k] == y;
                assert(r[k + 1] == y);
            }
        }
    } else {
        lemma_insert_sorted_elems(x, s.drop_first());
        let t = insert_sorted(x, s.drop_first());
        let r = seq![s.first()] + t;
        assert forall|y: PlannedModel| #[trigger] r.contains(y) <==> (y == x || s.contains(y)) by {
            if r.contains(y) {
                let k = choose|k: int| 0 <= k < r.len() && r[k] == y;
                if k == 0 {
                    assert(s[0] == y);
                    assert(s.contains(y));
                } else {
                    assert(t.contains(t[k - 1]));
                    if t[k - 1] == x {
                    } else {
                        assert(s.drop_first().contains(t[k - 1]));
                        let m = choose|m: int|
                            0 <= m < s.drop_first().len() && s.drop_first()[m] == y;
                        assert(s[m + 1] == y);
                    }
                }
            }
            if y == x {
                assert(t.contains(y));
                let k = choose|k: int| 0 <= k < t.len() && t[k] == y;
                assert(r[k + 1] == y);
            }
            if s.contains(y) {
                let k = choose|k: int| 0 <= k < s.len() && s[k] == y;
                if k == 0 {
                    assert(r[0] == y);
                } else {
                    assert(s.drop_first()[k - 1] == y);
                    assert(t.contains(y));
                    let m = choose|m: int| 0 <= m < t.len() && t[m] == y;
                    assert(r[m + 1] == y);
                }
            }
        }
    }
}

proof fn lemma_sort_entries_order(s: Seq<PlannedModel>)
    ensures
        sorted_names(sort_entries(s)),
    decreases s.len(),
{
    if s.len() > 0 {
        lemma_sort_entries_order(s.drop_last());
        lemma_insert_sorted_order(s.last(), sort_entries(s.drop_last()));
    }
}

proof fn lemma_dedup_from_strict(s: Seq<PlannedModel>, last: Seq<char>)
    requires
        sorted_names(s),
        forall|i: int| 0 <= i < s.len() ==> lex_leq(last, (#[trigger] s[i]).name),
    ensures
        strict_sorted_names(dedup_from(s, last)),
        forall|i: int|
            0 <= i < dedup_from(s, last).len() ==> lex_lt(
                last,
                (#[trigger] dedup_from(s, last)[i]).name,
            ),
    decreases s.len(),
{
    if s.len() == 0 {
    } else if s.first().name == last {
        assert(sorted_names(s.drop_first()));
        assert forall|i: int| 0 <= i < s.drop_first().len() implies lex_leq(
            last,
            (#[trigger] s.drop_first()[i]).name,
        ) by {
            assert(s.drop_first()[i] == s[i + 1]);
        }
        lemma_dedup_from_strict(s.drop_first(), last);
    } else {
        assert(sorted_names(s.drop_first()));
        assert forall|i: int| 0 <= i < s.drop_first().len() implies lex_leq(
            s.first().name,
            (#[trigger] s.drop_first()[i]).name,
        ) by {
            assert(s.drop_first()[i] == s[i + 1]);
            if i + 1 > 0 {
                assert(lex_leq(s[0].name, s[i + 1].name));
            }
        }
        lemma_dedup_from_strict(s.drop_first(), s.first().name);
        let t = dedup_from(s.drop_first(), s.first().name);
        let r = seq![s.first()] + t;
        assert(lex_lt(last, s.first().name));
        assert forall|a: int, b: int| 0 <= a < b < r.len() implies lex_lt(
            (#[trigger] r[a]).name,
            (#[trigger] r[b]).name,
        ) by {
            if a == 0 {
                assert(r[b] == t[b - 1]);
                assert(lex_lt(s.first().name, t[b - 1].name));
            } else {
                assert(r[a] == t[a - 1]);
                assert(r[b] == t[b - 1]);
            }
        }
        assert forall|i: int| 0 <= i < r.len() implies lex_lt(last, (#[trigger] r[i]).name) by {
            if i > 0 {
                assert(r[i] == t[i - 1]);
                lemma_lex_trans(last, s.first().name, t[i - 1].name);
                assert(lex_leq(last, t[i - 1].name));
                if last == t[i - 1].name {
                    assert(lex_lt(s.first().name, t[i - 1].name));
                    lemma_lex_antisym(s.first().name, t[i - 1].name);
                }
            }
        }
    }
}

/// A deduplicated sorted block ascends strictly: its names are distinct.
proof fn lemma_dedup_entries_strict(s: Seq<PlannedModel>)
    requires
        sorted_names(s),
    ensures
        strict_sorted_names(dedup_entries(s)),
{
    if s.len() > 0 {
        assert(sorted_names(s.drop_first()));
        assert forall|i: int| 0 <= i < s.drop_first().len() implies lex_leq(
            s.first().name,
            (#[trigger] s.drop_first()[i]).name,
        ) by {
            assert(s.drop_first()[i] == s[i + 1]);
            if i + 1 > 0 {
                assert(lex_leq(s[0].name, s[i + 1].name));
            }
        }
        lemma_dedup_from_strict(s.drop_first(), s.first().name);
        let t = dedup_from(s.drop_first(), s.first().name);
        let r = seq![s.first()] + t;
        assert forall|a: int, b: int| 0 <= a < b < r.len() implies lex_lt(
            (#[trigger] r[a]).name,
            (#[trigger] r[b]).name,
        ) by {
            if a == 0 {
                assert(r[b] == t[b - 1]);
            } else {
                assert(r[a] == t[a - 1]);
                assert(r[b] == t[b - 1]);
            }
        }
    }
}

/// The directory block of any walk ascends strictly.
pub proof fn lemma_dir_block_strict(d: Option<Seq<char>>, ws: Seq<WalkedModel>)
    ensures
        strict_sorted_names(dir_block(d, ws)),
{
    lemma_sort_entries_order(dir_candidates(d, ws));
    lemma_dedup_entries_strict(sort_entries(dir_candidates(d, ws)));
}

/// Sorting keeps exactly the elements.
pub proof fn lemma_sort_entries_elems(s: Seq<PlannedModel>)
    ensures
        forall|y: PlannedModel| #[trigger] sort_entries(s).contains(y) <==> s.contains(y),
    decreases s.len(),
{
    if s.len() > 0 {
        lemma_sort_entries_elems(s.drop_last());
        lemma_insert_sorted_elems(s.last(), sort_entries(s.drop_last()));
        assert forall|y: PlannedModel| #[trigger]
            sort_entries(s).contains(y) <==> s.contains(y) by {
            if sort_entries(s).contains(y) {
                if y == s.last() {
                    assert(s[s.len() - 1] == y);
                } else {
                    assert(s.drop_last().contains(y));
                    let k = choose|k: int| 0 <= k < s.drop_last().len() && s.drop_last()[k] == y;
                    assert(s[k] == y);
                }
            }
            if s.contains(y) {
                let k = choose|k: int| 0 <= k < s.len() && s[k] == y;
                if k == s.len() - 1 {
                    assert(y == s.last());
                } else {
                    assert(s.drop_last()[k] == y);
                    assert(s.drop_last().contains(y));
                }
            }
        }
    }
}

/// Deduplication keeps only elements of its input.
proof fn lemma_dedup_from_elems(s: Seq<PlannedModel>, last: Seq<char>)
    ensures
        forall|y: PlannedModel| #[trigger] dedup_from(s, last).contains(y) ==> s.contains(y),
    decreases s.len(),
{
    if s.len() > 0 {
        lemma_dedup_from_elems(s.drop_first(), last);
        lemma_dedup_from_elems(s.drop_first(), s.first().name);
        assert forall|y: PlannedModel| #[trigger]
            dedup_from(s, last).contains(y) implies s.contains(y) by {
            if s.first().name == last {
                assert(dedup_from(s.drop_first(), last).contains(y));
                assert(s.drop_first().contains(y));
                let k = choose|k: int| 0 <= k < s.drop_first().len() && s.drop_first()[k] == y;
                assert(s[k + 1] == y);
            } else {
                let r = seq![s.first()] + dedup_from(s.drop_first(), s.first().name);
                let k = choose|k: int| 0 <= k < r.len() && r[k] == y;
                if k == 0 {
                    assert(s[0] == y);
                } else {
                    assert(dedup_from(s.drop_first(), s.first().name)[k - 1] == y);
                    assert(dedup_from(s.drop_first(), s.first().name).contains(y));
                    assert(s.drop_first().contains(y));
                    let m = choose|m: int| 0 <= m < s.drop_first().len() && s.drop_first()[m] == y;
                    assert(s[m + 1] == y);
                }
            }
        }
    }
}

proof fn lemma_dedup_entries_elems(s: Seq<PlannedModel>)
    ensures
        forall|y: PlannedModel| #[trigger] dedup_entries(s).contains(y) ==> s.contains(y),
{
    if s.len() > 0 {
        lemma_dedup_from_elems(s.drop_first(), s.first().name);
        assert forall|y: PlannedModel| #[trigger]
            dedup_entries(s).contains(y) implies s.contains(y) by {
            let r = seq![s.first()] + dedup_from(s.drop_first(), s.first().name);
            let k = choose|k: int| 0 <= k < r.len() && r[k] == y;
            if k == 0 {
                assert(s[0] == y);
            } else {
                assert(dedup_from(s.drop_first(), s.first().name)[k - 1] == y);
                assert(dedup_from(s.drop_first(), s.first().name).contains(y));
                assert(s.drop_first().contains(y));
                let m = choose|m: int| 0 <= m < s.drop_first().len() && s.drop_first()[m] == y;
                assert(s[m + 1] == y);
            }
        }
    }
}

/// Every element of the directory block was a directory candidate.
proof fn lemma_dir_block_elems(d: Option<Seq<char>>, ws: Seq<WalkedModel>)
    ensures
        forall|y: PlannedModel|
            #[trigger] dir_block(d, ws).contains(y) ==> dir_candidates(d, ws).contains(y),
{
    lemma_sort_entries_elems(dir_candidates(d, ws));
    lemma_dedup_entries_elems(sort_entries(dir_candidates(d, ws)));
}

/// Under a named root every candidate's name runs past the root's own.
proof fn lemma_dir_candidates_long(dd: Seq<char>, ws: Seq<WalkedModel>)
    ensures
        forall|i: int|
            0 <= i < dir_candidates(Some(dd), ws).len() ==> (#[trigger] dir_candidates(
                Some(dd),
                ws,
            )[i]).name.len() >= dd.len() + 2,
    decreases ws.len(),
{
    if ws.len() > 0 {
        lemma_dir_candidates_long(dd, ws.drop_last());
        let prior = dir_candidates(Some(dd), ws.drop_last());
        assert forall|i: int|
            0 <= i < dir_candidates(Some(dd), ws).len() implies (#[trigger] dir_candidates(
            Some(dd),
            ws,
        )[i]).name.len() >= dd.len() + 2 by {
            if i < prior.len() {
                assert(dir_candidates(Some(dd), ws)[i] == prior[i]);
            } else {
                let w = ws.last();
                assert(dir_candidates(Some(dd), ws)[i].name == walked_dir_name(Some(dd), w));
                assert(archive_name(Some(dd), w.rel_path).len() == dd.len() + 1
                    + w.rel_path.len());
            }
        }
    }
}

// ---------------------------------------------------------------------------
// Directory-before-contents
// ---------------------------------------------------------------------------

/// `p` lies strictly above `n`: `n` begins with `p` and goes on.
pub open spec fn name_under(p: Seq<char>, n: Seq<char>) -> bool {
    p.is_prefix_of(n) && p.len() < n.len()
}

/// Directory-before-contents, per source: in the plan of one source, every
/// directory entry stands before every entry whose name lies under it, so
/// a consumer scanning the archive in write order meets a directory before
/// anything in it.
pub proof fn lemma_source_plan_dir_order(s: SourceModel)
    requires
        source_ok(s),
    ensures
        forall|i: int, j: int|
            0 <= i < source_plan(s).len() && 0 <= j < source_plan(s).len() && (#[trigger] source_plan(
                s,
            )[i]).is_dir && name_under(source_plan(s)[i].name, (#[trigger] source_plan(s)[j]).name)
                ==> i < j,
{
    match s {
        SourceModel::SingleFile { .. } => {
            assert(source_plan(s).len() == 1);
            assert(!source_plan(s)[0].is_dir);
        },
        SourceModel::DirectoryTree { path, mode, entries } => {
            let d = final_component(path);
            let te = top_entry(d, mode);
            let db = dir_block(d, entries);
            let fe = file_entries_of(d, entries);
            let plan = source_plan(s);
            lemma_dir_block_strict(d, entries);
            lemma_dir_block_elems(d, entries);
            lemma_file_entries_not_dir(d, entries);
            assert forall|i: int, j: int|
                0 <= i < plan.len() && 0 <= j < plan.len() && (#[trigger] plan[i]).is_dir
                    && name_under(plan[i].name, (#[trigger] plan[j]).name) implies i < j by {
                if i >= te.len() + db.len() {
                    // file entries are no directories
                    assert(plan[i] == fe[i - te.len() - db.len()]);
                    assert(false);
                } else if j < te.len() {
                    // nothing lies under a name within the top entry's own
                    match d {
                        Option::Some(dd) => {
                            assert(plan[j] == te[0]);
                            assert(plan[j].name.len() == dd.len() + 1);
                            if i < te.len() {
                                // i == j == 0: a name never lies under itself
                                assert(plan[i].name.len() < plan[j].name.len());
                                assert(false);
                            } else {
                                // block names are longer than the top's
                                let y = db[i - te.len()];
                                assert(plan[i] == y);
                                assert(db.contains(y)) by {
                                    assert(db[i - te.len()] == y);
                                }
                                lemma_dir_candidates_long(dd, entries);
                                let c = dir_candidates(Some(dd), entries);
                                assert(c.contains(y));
                                let k = choose|k: int| 0 <= k < c.len() && c[k] == y;
                                assert(y.name.len() >= dd.len() + 2);
                                assert(false);
                            }
                        },
                        Option::None => {
                            assert(false);
                        },
                    }
                } else if j < te.len() + db.len() {
                    if i < te.len() {
                        // the top entry comes first of all
                    } else if i < te.len() + db.len() {
                        // within the strictly sorted block a prefix comes first
                        let a = i - te.len();
                        let b = j - te.len();
                        assert(plan[i] == db[a]);
                        assert(plan[j] == db[b]);
                        crate::names::lemma_prefix_lex_leq(db[a].name, db[b].name);
                        if b < a {
                            assert(lex_lt(db[b].name, db[a].name));
                            lemma_lex_antisym(db[a].name, db[b].name);
                            assert(false);
                        } else if a == b {
                            assert(plan[i].name.len() < plan[j].name.len());
                            assert(false);
                        }
                    }
                } else {
                    // every file entry follows the whole directory block
                    assert(i < te.len() + db.len());
                }
            }
        },
    }
}

/// `nm` belongs to the namespace of a source displayed as `dd`: it is `dd`
/// itself or lies under `dd/`.
pub open spec fn in_namespace(dd: Seq<char>, nm: Seq<char>) -> bool {
    nm == dd || (dd + seq!['/']).is_prefix_of(nm)
}

/// Every entry name a named source plans stays in its namespace.
proof fn lemma_source_plan_namespace(s: SourceModel, dd: Seq<char>)
    requires
        source_ok(s),
        source_display(s) == Some(dd),
    ensures
        forall|k: int|
            0 <= k < source_plan(s).len() ==> in_namespace(
                dd,
                (#[trigger] source_plan(s)[k]).name,
            ),
{
    match s {
        SourceModel::SingleFile { .. } => {
            assert(source_plan(s)[0].name == dd);
        },
        SourceModel::DirectoryTree { path, mode, entries } => {
            let d = final_component(path);
            let te = top_entry(d, mode);
            let db = dir_block(d, entries);
            let fe = file_entries_of(d, entries);
            let plan = source_plan(s);
            lemma_dir_block_elems(d, entries);
            lemma_dir_candidates_prefixed(dd, entries);
            lemma_file_entries_prefixed(dd, entries);
            assert forall|k: int| 0 <= k < plan.len() implies in_namespace(
                dd,
                (#[trigger] plan[k]).name,
            ) by {
                if k < te.len() {
                    assert(plan[k] == te[0]);
                    assert((dd + seq!['/']).is_prefix_of(dd + seq!['/']));
                } else if k < te.len() + db.len() {
                    let y = db[k - te.len()];
                    assert(plan[k] == y);
                    assert(db.contains(y)) by {
                        assert(db[k - te.len()] == y);
                    }
                    let c = dir_candidates(Some(dd), entries);
                    assert(c.contains(y));
                    let m = choose|m: int| 0 <= m < c.len() && c[m] == y;
                    assert((dd + seq!['/']).is_prefix_of(c[m].name));
                } else {
                    assert(plan[k] == fe[k - te.len() - db.len()]);
                }
            }
        },
    }
}

proof fn lemma_dir_candidates_prefixed(dd: Seq<char>, ws: Seq<WalkedModel>)
    ensures
        forall|i: int|
            0 <= i < dir_candidates(Some(dd), ws).len() ==> (dd + seq!['/']).is_prefix_of(
                (#[trigger] dir_candidates(Some(dd), ws)[i]).name,
            ),
    decreases ws.len(),
{
    if ws.len() > 0 {
        lemma_dir_candidates_prefixed(dd, ws.drop_last());
        let prior = dir_candidates(Some(dd), ws.drop_last());
        assert forall|i: int|
            0 <= i < dir_candidates(Some(dd), ws).len() implies (dd + seq!['/']).is_prefix_of(
            (#[trigger] dir_candidates(Some(dd), ws)[i]).name,
        ) by {
            if i < prior.len() {
                assert(dir_candidates(Some(dd), ws)[i] == prior[i]);
            } else {
                let w = ws.last();
                let joined = archive_name(Some(dd), w.rel_path);
                assert(dir_candidates(Some(dd), ws)[i].name == with_dir_slash(joined));
                assert((dd + seq!['/']).is_prefix_of(joined)) by {
                    assert(joined =~= (dd + seq!['/']) + w.rel_path);
                    assert(joined.subrange(0, dd.len() as int + 1) =~= dd + seq!['/']);
                }
                if !is_dir_name(joined) {
                    assert(with_dir_slash(joined).subrange(0, dd.len() as int + 1)
                        =~= joined.subrange(0, dd.len() as int + 1));
                }
            }
        }
    }
}

proof fn lemma_file_entries_prefixed(dd: Seq<char>, ws: Seq<WalkedModel>)
    ensures
        forall|i: int|
            0 <= i < file_entries_of(Some(dd), ws).len() ==> (dd + seq!['/']).is_prefix_of(
                (#[trigger] file_entries_of(Some(dd), ws)[i]).name,
            ),
    decreases ws.len(),
{
    if ws.len() > 0 {
        lemma_file_entries_prefixed(dd, ws.drop_last());
        let prior = file_entries_of(Some(dd), ws.drop_last());
        assert forall|i: int|
            0 <= i < file_entries_of(Some(dd), ws).len() implies (dd + seq!['/']).is_prefix_of(
            (#[trigger] file_entries_of(Some(dd), ws)[i]).name,
        ) by {
            if i < prior.len() {
                assert(file_entries_of(Some(dd), ws)[i] == prior[i]);
            } else {
                let w = ws.last();
                let joined = archive_name(Some(dd), w.rel_path);
                assert(file_entries_of(Some(dd), ws)[i].name == joined);
                assert(joined =~= (dd + seq!['/']) + w.rel_path);
                assert(joined.subrange(0, dd.len() as int + 1) =~= dd + seq!['/']);
            }
        }
    }
}

/// Names from the namespaces of two distinctly displayed sources never lie
/// one under the other.
proof fn lemma_namespace_disjoint(da: Seq<char>, db: Seq<char>, na: Seq<char>, nb: Seq<char>)
    requires
        da != db,
        da.len() > 0,
        db.len() > 0,
        !da.contains('/'),
        !db.contains('/'),
        in_namespace(da, na),
        in_namespace(db, nb),
        is_dir_name(na),
    ensures
        !name_under(na, nb),
{
    if name_under(na, nb) {
        // a directory name ends in `/`, so it is not the bare display name
        assert(na != da) by {
            if na == da {
                assert(da.contains('/')) by {
                    assert(da[da.len() as int - 1] == '/');
                }
            }
        }
        assert((da + seq!['/']).is_prefix_of(na));
        // da/ is a prefix of nb through na
        assert((da + seq!['/']).is_prefix_of(nb)) by {
            assert forall|k: int| 0 <= k < da.len() as int + 1 implies nb[k] == (da + seq!['/'])[k] by {
                assert(na[k] == (da + seq!['/'])[k]);
                assert(nb[k] == na[k]);
            }
            assert(nb.subrange(0, da.len() as int + 1) =~= da + seq!['/']);
        }
        if nb == db {
            assert(db[da.len() as int] == '/');
            assert(db.contains('/'));
        } else {
            assert((db + seq!['/']).is_prefix_of(nb));
            if da.len() == db.len() {
                assert(da =~= db) by {
                    assert forall|k: int| 0 <= k < da.len() as int implies da[k] == db[k] by {
                        assert(nb[k] == (da + seq!['/'])[k]);
                        assert(nb[k] == (db + seq!['/'])[k]);
                    }
                }
            } else if da.len() < db.len() {
                assert(nb[da.len() as int] == (da + seq!['/'])[da.len() as int]);
                assert(nb[da.len() as int] == (db + seq!['/'])[da.len() as int]);
                assert(db[da.len() as int] == '/');
                assert(db.contains('/'));
            } else {
                assert(nb[db.len() as int] == (db + seq!['/'])[db.len() as int]);
                assert(nb[db.len() as int] == (da + seq!['/'])[db.len() as int]);
                assert(da[db.len() as int] == '/');
                assert(da.contains('/'));
            }
        }
    }
}

/// Every source carries a display name, and no two carry the same.
pub open spec fn distinct_display_names(sources: Seq<SourceModel>) -> bool {
    &&& forall|i: int| 0 <= i < sources.len() ==> source_display(#[trigger] sources[i]) is Some
    &&& forall|i: int, j: int|
        0 <= i < j < sources.len() ==> source_display(#[trigger] sources[i]) != source_display(
            #[trigger] sources[j],
        )
}

/// Every name of a build plan lies in the namespace of the source that
/// contributed it.
proof fn lemma_build_plan_namespace(sources: Seq<SourceModel>)
    requires
        build_ok(sources),
        distinct_display_names(sources),
    ensures
        forall|m: int|
            0 <= m < build_plan(sources).len() ==> exists|k: int|
                0 <= k < sources.len() && in_namespace(
                    source_display(sources[k]).unwrap(),
                    (#[trigger] build_plan(sources)[m]).name,
                ),
    decreases sources.len(),
{
    if sources.len() > 0 {
        let head = sources.drop_last();
        assert(build_ok(head) && distinct_display_names(head)) by {
            assert(forall|i: int| 0 <= i < head.len() ==> head[i] == sources[i]);
        }
        lemma_build_plan_namespace(head);
        assert(source_ok(sources.last()) && source_display(sources.last()) is Some) by {
            assert(sources[sources.len() - 1] == sources.last());
        }
        let dd = source_display(sources.last()).unwrap();
        lemma_source_plan_namespace(sources.last(), dd);
        let a = build_plan(head);
        let b = source_plan(sources.last());
        assert forall|m: int| 0 <= m < build_plan(sources).len() implies exists|k: int|
            0 <= k < sources.len() && in_namespace(
                source_display(sources[k]).unwrap(),
                (#[trigger] build_plan(sources)[m]).name,
            ) by {
            if m < a.len() {
                assert(build_plan(sources)[m] == a[m]);
                let k = choose|k: int|
                    0 <= k < head.len() && in_namespace(
                        source_display(head[k]).unwrap(),
                        a[m].name,
                    );
                assert(head[k] == sources[k]);
                assert(in_namespace(
                    source_display(sources[k]).unwrap(),
                    build_plan(sources)[m].name,
                ));
            } else {
                assert(build_plan(sources)[m] == b[m - a.len()]);
                let k = sources.len() - 1;
                assert(sources[k] == sources.last());
                assert(in_namespace(
                    source_display(sources[k]).unwrap(),
                    build_plan(sources)[m].name,
                ));
            }
        }
    }
}

/// Directory-before-contents for a whole build: when the sources carry
/// pairwise distinct display names, every directory entry of the archive
/// stands before every entry whose name lies under it.  (Two sources of
/// one display name interleave their blocks; the per-source law is what
/// holds then.)
pub proof fn lemma_build_plan_dir_order(sources: Seq<SourceModel>)
    requires
        build_ok(sources),
        distinct_display_names(sources),
    ensures
        forall|i: int, j: int|
            0 <= i < build_plan(sources).len() && 0 <= j < build_plan(sources).len() && (
            #[trigger] build_plan(sources)[i]).is_dir && name_under(
                build_plan(sources)[i].name,
                (#[trigger] build_plan(sources)[j]).name,
            ) ==> i < j,
    decreases sources.len(),
{
    if sources.len() > 0 {
        let head = sources.drop_last();
        assert(build_ok(head) && distinct_display_names(head)) by {
            assert(forall|i: int| 0 <= i < head.len() ==> head[i] == sources[i]);
        }
        lemma_build_plan_dir_order(head);
        lemma_build_plan_namespace(head);
        assert(source_ok(sources.last()) && source_display(sources.last()) is Some) by {
            assert(sources[sources.len() - 1] == sources.last());
        }
        let dd = source_display(sources.last()).unwrap();
        lemma_source_plan_dir_order(sources.last());
        lemma_source_plan_namespace(sources.last(), dd);
        crate::names::lemma_final_component_shape(source_path(sources.last()));
        let a = build_plan(head);
        let b = source_plan(sources.last());
        let plan = build_plan(sources);
        assert forall|i: int, j: int|
            0 <= i < plan.len() && 0 <= j < plan.len() && (#[trigger] plan[i]).is_dir
                && name_under(plan[i].name, (#[trigger] plan[j]).name) implies i < j by {
            if i < a.len() && j < a.len() {
                assert(plan[i] == a[i]);
                assert(plan[j] == a[j]);
            } else if i >= a.len() && j >= a.len() {
                assert(plan[i] == b[i - a.len()]);
                assert(plan[j] == b[j - a.len()]);
                assert(i - a.len() < j - a.len());
            } else if i < a.len() {
                // an earlier source's entry always precedes a later one's
            } else {
                // the last source's directory cannot reach into an earlier
                // source's namespace
                assert(plan[i] == b[i - a.len()]);
                assert(plan[j] == a[j]);
                assert(in_namespace(dd, plan[i].name));
                let k = choose|k: int|
                    0 <= k < head.len() && in_namespace(
                        source_display(head[k]).unwrap(),
                        a[j].name,
                    );
                let dk = source_display(head[k]).unwrap();
                assert(head[k] == sources[k]);
                assert(source_display(sources[k]) != source_display(sources.last()));
                assert(dk != dd);
                crate::names::lemma_final_component_shape(source_path(sources[k]));
                assert(is_dir_name(plan[i].name)) by {
                    lemma_build_plan_dirs_slashed(sources);
                }
                lemma_namespace_disjoint(dd, dk, plan[i].name, plan[j].name);
                assert(false);
            }
        }
    }
}

// ---------------------------------------------------------------------------
// Well-formed walks, and the shape of every planned name
// ---------------------------------------------------------------------------

/// A relative path as a tree walk yields it: non-empty, relative, without
/// a trailing separator, NUL-free, and never climbing through `..`.
pub open spec fn normal_rel_path(p: Seq<char>) -> bool {
    &&& p.len() > 0
    &&& p.first() != '/'
    &&& p.last() != '/'
    &&& !p.contains('\0')
    &&& forall|i: int| 0 <= i < split_slash(p).len() ==> !comp_parent(#[trigger] split_slash(p)[i])
}

/// The paths of a source are paths a filesystem can hold.
pub open spec fn wf_source(s: SourceModel) -> bool {
    match s {
        SourceModel::SingleFile { path, .. } => !path.contains('\0'),
        SourceModel::DirectoryTree { path, entries, .. } => !path.contains('\0') && forall|i: int|
            0 <= i < entries.len() ==> normal_rel_path((#[trigger] entries[i]).rel_path),
    }
}

pub open spec fn wf_sources(sources: Seq<SourceModel>) -> bool {
    forall|i: int| 0 <= i < sources.len() ==> wf_source(#[trigger] sources[i])
}

/// A display name is a single honest component: non-empty, free of `/` and
/// NUL, and not the parent-directory marker.
proof fn lemma_display_shape(path: Seq<char>, dd: Seq<char>)
    requires
        !path.contains('\0'),
        final_component(path) == Some(dd),
    ensures
        dd.len() > 0,
        !dd.contains('/'),
        !dd.contains('\0'),
        !comp_parent(dd),
{
    crate::names::lemma_final_component_shape(path);
    crate::names::lemma_split_not_contains(path, '\0');
    crate::names::lemma_meaningful_sub(split_slash(path));
    let m = crate::names::meaningful_comps(path);
    assert(dd == m[m.len() - 1]);
    assert(split_slash(path).contains(dd));
    let k = choose|k: int| 0 <= k < split_slash(path).len() && split_slash(path)[k] == dd;
    assert(!split_slash(path)[k].contains('\0'));
}

/// A planned entry is fit to extract: its name passes the traversal check
/// and its trailing `/` says exactly whether it is a directory.
pub open spec fn plan_entry_shaped(p: PlannedModel) -> bool {
    &&& safe_entry_path(p.name)
    &&& (p.is_dir <==> is_dir_name(p.name))
}

pub open spec fn plan_shaped(ps: Seq<PlannedModel>) -> bool {
    forall|i: int| 0 <= i < ps.len() ==> plan_entry_shaped(#[trigger] ps[i])
}

/// The name joined from a display name and a walked relative path is safe,
/// and carries a trailing `/` exactly when one is appended.
proof fn lemma_joined_name_shape(d: Option<Seq<char>>, rel: Seq<char>)
    requires
        normal_rel_path(rel),
        d matches Some(dd) ==> dd.len() > 0 && !dd.contains('/') && !dd.contains('\0')
            && !comp_parent(dd),
    ensures
        safe_entry_path(archive_name(d, rel)),
        !is_dir_name(archive_name(d, rel)),
        safe_entry_path(with_dir_slash(archive_name(d, rel))),
        is_dir_name(with_dir_slash(archive_name(d, rel))),
        archive_name(d, rel).len() > 0,
{
    let nm = archive_name(d, rel);
    match d {
        Option::None => {
            assert(nm == rel);
            crate::names::lemma_enclosed_no_parent(split_slash(rel), 0);
        },
        Option::Some(dd) => {
            assert(nm == dd + seq!['/'] + rel);
            assert(nm.len() == dd.len() + 1 + rel.len());
            assert(nm[0] == dd[0]);
            assert(dd[0] != '/') by {
                if dd[0] == '/' {
                    assert(dd.contains('/'));
                }
            }
            assert(!nm.contains('\0')) by {
                if nm.contains('\0') {
                    let k = choose|k: int| 0 <= k < nm.len() && nm[k] == '\0';
                    if k < dd.len() {
                        assert(dd[k] == '\0');
                        assert(dd.contains('\0'));
                    } else if k > dd.len() {
                        assert(rel[k - dd.len() - 1] == '\0');
                        assert(rel.contains('\0'));
                    }
                }
            }
            crate::names::lemma_split_append(dd, rel);
            crate::names::lemma_split_no_slash_whole(dd);
            assert(split_slash(nm) == seq![dd] + split_slash(rel));
            assert forall|i: int| 0 <= i < split_slash(nm).len() implies !comp_parent(
                #[trigger] split_slash(nm)[i],
            ) by {
                if i == 0 {
                    assert(split_slash(nm)[0] == dd);
                } else {
                    assert(split_slash(nm)[i] == split_slash(rel)[i - 1]);
                }
            }
            crate::names::lemma_enclosed_no_parent(split_slash(nm), 0);
            assert(nm.last() == rel.last());
        },
    }
    // appending the directory slash keeps the name safe
    assert(!is_dir_name(nm)) by {
        assert(nm.last() == rel.last());
    }
    let dn = with_dir_slash(nm);
    assert(dn == nm.push('/'));
    assert(dn[0] == nm[0]);
    assert(!dn.contains('\0')) by {
        if dn.contains('\0') {
            let k = choose|k: int| 0 <= k < dn.len() && dn[k] == '\0';
            if k < nm.len() {
                assert(nm[k] == '\0');
                assert(nm.contains('\0'));
            }
        }
    }
    assert(dn.drop_last() =~= nm);
    assert(split_slash(dn) == split_slash(nm).push(Seq::<char>::empty()));
    assert forall|i: int| 0 <= i < split_slash(dn).len() implies !comp_parent(
        #[trigger] split_slash(dn)[i],
    ) by {
        if i < split_slash(nm).len() {
            assert(split_slash(dn)[i] == split_slash(nm)[i]);
        } else {
            assert(split_slash(dn)[i] =~= Seq::<char>::empty());
        }
    }
    crate::names::lemma_enclosed_no_parent(split_slash(dn), 0);
}

/// A bare display name is itself a safe file name, and a safe directory
/// name once `/`-terminated.
proof fn lemma_display_name_shape(dd: Seq<char>)
    requires
        dd.len() > 0,
        !dd.contains('/'),
        !dd.contains('\0'),
        !comp_parent(dd),
    ensures
        safe_entry_path(dd),
        !is_dir_name(dd),
        safe_entry_path(dd + seq!['/']),
        is_dir_name(dd + seq!['/']),
{
    assert(dd[0] != '/') by {
        if dd[0] == '/' {
            assert(dd.contains('/'));
        }
    }
    crate::names::lemma_split_no_slash_whole(dd);
    crate::names::lemma_enclosed_no_parent(split_slash(dd), 0);
    assert(dd.last() != '/') by {
        if dd.last() == '/' {
            assert(dd[dd.len() - 1] == '/');
            assert(dd.contains('/'));
        }
    }
    let dn = dd + seq!['/'];
    assert(dn.drop_last() =~= dd);
    assert(dn.last() == '/');
    assert(split_slash(dn) == split_slash(dd).push(Seq::<char>::empty()));
    assert forall|i: int| 0 <= i < split_slash(dn).len() implies !comp_parent(
        #[trigger] split_slash(dn)[i],
    ) by {
        if i < split_slash(dd).len() {
            assert(split_slash(dn)[i] == split_slash(dd)[i]);
        } else {
            assert(split_slash(dn)[i] =~= Seq::<char>::empty());
        }
    }
    crate::names::lemma_enclosed_no_parent(split_slash(dn), 0);
    assert(!dn.contains('\0')) by {
        if dn.contains('\0') {
            let k = choose|k: int| 0 <= k < dn.len() && dn[k] == '\0';
            if k < dd.len() {
                assert(dd.contains('\0'));
            }
        }
    }
}

proof fn lemma_dir_candidates_safe(d: Option<Seq<char>>, ws: Seq<WalkedModel>)
    requires
        forall|i: int| 0 <= i < ws.len() ==> normal_rel_path((#[trigger] ws[i]).rel_path),
        d matches Some(dd) ==> dd.len() > 0 && !dd.contains('/') && !dd.contains('\0')
            && !comp_parent(dd),
    ensures
        forall|i: int|
            0 <= i < dir_candidates(d, ws).len() ==> plan_entry_shaped(
                #[trigger] dir_candidates(d, ws)[i],
            ),
    decreases ws.len(),
{
    if ws.len() > 0 {
        assert forall|i: int| 0 <= i < ws.drop_last().len() implies normal_rel_path(
            (#[trigger] ws.drop_last()[i]).rel_path,
        ) by {
            assert(ws.drop_last()[i] == ws[i]);
        }
        lemma_dir_candidates_safe(d, ws.drop_last());
        let prior = dir_candidates(d, ws.drop_last());
        assert forall|i: int| 0 <= i < dir_candidates(d, ws).len() implies plan_entry_shaped(
            #[trigger] dir_candidates(d, ws)[i],
        ) by {
            if i < prior.len() {
                assert(dir_candidates(d, ws)[i] == prior[i]);
            } else {
                assert(ws[ws.len() - 1] == ws.last());
                lemma_joined_name_shape(d, ws.last().rel_path);
            }
        }
    }
}

proof fn lemma_file_entries_safe(d: Option<Seq<char>>, ws: Seq<WalkedModel>)
    requires
        forall|i: int| 0 <= i < ws.len() ==> normal_rel_path((#[trigger] ws[i]).rel_path),
        d matches Some(dd) ==> dd.len() > 0 && !dd.contains('/') && !dd.contains('\0')
            && !comp_parent(dd),
    ensures
        forall|i: int|
            0 <= i < file_entries_of(d, ws).len() ==> plan_entry_shaped(
                #[trigger] file_entries_of(d, ws)[i],
            ),
    decreases ws.len(),
{
    if ws.len() > 0 {
        assert forall|i: int| 0 <= i < ws.drop_last().len() implies normal_rel_path(
            (#[trigger] ws.drop_last()[i]).rel_path,
        ) by {
            assert(ws.drop_last()[i] == ws[i]);
        }
        lemma_file_entries_safe(d, ws.drop_last());
        let prior = file_entries_of(d, ws.drop_last());
        assert forall|i: int| 0 <= i < file_entries_of(d, ws).len() implies plan_entry_shaped(
            #[trigger] file_entries_of(d, ws)[i],
        ) by {
            if i < prior.len() {
                assert(file_entries_of(d, ws)[i] == prior[i]);
            } else {
                assert(ws[ws.len() - 1] == ws.last());
                lemma_joined_name_shape(d, ws.last().rel_path);
            }
        }
    }
}

/// Every entry of a well-formed build's plan is fit to extract.
pub proof fn lemma_build_plan_shaped(sources: Seq<SourceModel>)
    requires
        build_ok(sources),
        wf_sources(sources),
    ensures
        plan_shaped(build_plan(sources)),
    decreases sources.len(),
{
    if sources.len() > 0 {
        let head = sources.drop_last();
        assert(build_ok(head) && wf_sources(head)) by {
            assert(forall|i: int| 0 <= i < head.len() ==> head[i] == sources[i]);
        }
        lemma_build_plan_shaped(head);
        assert(source_ok(sources.last()) && wf_source(sources.last())) by {
            assert(sources[sources.len() - 1] == sources.last());
        }
        lemma_source_plan_shaped(sources.last());
        let a = build_plan(head);
        let b = source_plan(sources.last());
        assert forall|i: int| 0 <= i < build_plan(sources).len() implies plan_entry_shaped(
            #[trigger] build_plan(sources)[i],
        ) by {
            if i < a.len() {
                assert(build_plan(sources)[i] == a[i]);
            } else {
                assert(build_plan(sources)[i] == b[i - a.len()]);
            }
        }
    }
}

proof fn lemma_source_plan_shaped(s: SourceModel)
    requires
        source_ok(s),
        wf_source(s),
    ensures
        plan_shaped(source_plan(s)),
{
    match s {
        SourceModel::SingleFile { path, .. } => {
            let dd = final_component(path).unwrap();
            lemma_display_shape(path, dd);
            lemma_display_name_shape(dd);
            assert(source_plan(s)[0].name == dd);
        },
        SourceModel::DirectoryTree { path, mode, entries } => {
            let d = final_component(path);
            let te = top_entry(d, mode);
            let db = dir_block(d, entries);
            let fe = file_entries_of(d, entries);
            let plan = source_plan(s);
            if d is Some {
                lemma_display_shape(path, d.unwrap());
                lemma_display_name_shape(d.unwrap());
            }
            lemma_dir_candidates_safe(d, entries);
            lemma_file_entries_safe(d, entries);
            lemma_dir_block_elems(d, entries);
            assert forall|i: int| 0 <= i < plan.len() implies plan_entry_shaped(
                #[trigger] plan[i],
            ) by {
                if i < te.len() {
                    assert(plan[i] == te[0]);
                } else if i < te.len() + db.len() {
                    let y = db[i - te.len()];
                    assert(plan[i] == y);
                    assert(db.contains(y)) by {
                        assert(db[i - te.len()] == y);
                    }
                    let c = dir_candidates(d, entries);
                    assert(c.contains(y));
                    let m = choose|m: int| 0 <= m < c.len() && c[m] == y;
                    assert(plan_entry_shaped(c[m]));
                } else {
                    assert(plan[i] == fe[i - te.len() - db.len()]);
                }
            }
        },
    }
}

// ---------------------------------------------------------------------------
// The build plan
// ---------------------------------------------------------------------------

/// Computes the write plan of a build: every container entry, in write
/// order, or the first source that cannot be named.
pub fn plan_build(sources: &Vec<SourceSpec>) -> (r: Result<Vec<PlannedEntry>, ArchiveError>)
    ensures
        r matches Ok(v) ==> (build_ok(sources.deep_view()) && v.deep_view() == build_plan(
            sources.deep_view(),
        )),
        r matches Err(e) ==> (!build_ok(sources.deep_view()) && (e matches
            ArchiveError::InvalidName(p) && exists|i: int|
            0 <= i < sources.deep_view().len() && !source_ok(#[trigger] sources.deep_view()[i])
                && p@ == source_path(sources.deep_view()[i]))),
{
    let ghost sv = sources.deep_view();
    let n: usize = sources.len();
    let mut out: Vec<PlannedEntry> = Vec::new();
    let mut i: usize = 0;
    proof {
        assert(sv.subrange(0, 0) =~= Seq::<SourceModel>::empty());
    }
    while i < n
        invariant
            n == sources.len(),
            sv == sources.deep_view(),
            sv.len() == n,
            i <= n,
            out.deep_view() == build_plan(sv.subrange(0, i as int)),
            forall|j: int| 0 <= j < i ==> source_ok(#[trigger] sv[j]),
        decreases n - i,
    {
        proof {
            assert(sv.subrange(0, i + 1).drop_last() =~= sv.subrange(0, i as int));
            assert(sv.subrange(0, i + 1).last() == sv[i as int]);
            assert(sv[i as int] == sources@[i as int]@);
        }
        let ghost pre = out.deep_view();
        match &sources[i] {
            SourceSpec::SingleFile { path, mode, content } => {
                match final_component_of(path.as_str()) {
                    Option::None => {
                        return Err(ArchiveError::InvalidName(path.clone()));
                    },
                    Option::Some(nm) => {
                        out.push(
                            PlannedEntry {
                                name: nm,
                                is_dir: false,
                                mode: *mode,
                                content: copy_bytes(content),
                            },
                        );
                        proof {
                            assert(out.deep_view() =~= pre + source_plan(sv[i as int]));
                        }
                    },
                }
            },
            SourceSpec::DirectoryTree { path, mode, entries } => {
                let d = final_component_of(path.as_str());
                match &d {
                    Option::Some(dd) => {
                        let mut nm = dd.clone();
                        nm.append("/");
                        proof {
                            reveal_strlit("/");
                            assert("/"@ =~= seq!['/']);
                        }
                        out.push(
                            PlannedEntry {
                                name: nm,
                                is_dir: true,
                                mode: *mode,
                                content: Vec::new(),
                            },
                        );
                    },
                    Option::None => {
                    },
                }
                let cands = collect_dir_candidates(&d, entries);
                let sorted = sort_dir_entries(&cands);
                let mut block = dedup_dir_entries(&sorted);
                out.append(&mut block);
                let mut files = collect_file_entries(&d, entries);
                out.append(&mut files);
                proof {
                    assert(out.deep_view() =~= pre + source_plan(sv[i as int]));
                }
            },
        }
        proof {
            assert(out.deep_view() =~= build_plan(sv.subrange(0, i + 1)));
        }
        i = i + 1;
    }
    proof {
        assert(sv.subrange(0, n as int) =~= sv);
    }
    Ok(out)
}

// ---------------------------------------------------------------------------
// The build pipeline
// ---------------------------------------------------------------------------

/// Builds an archive in memory: plans every entry, writes the plan through
/// the container codec in order, and finalizes the container.  On success
/// the returned bytes decode to entries that correspond one to one, in
/// order, to the plan of the given sources: same names, same contents, and
/// permission bits preserved in their low nine bits.
pub fn zip_files(sources: &Vec<SourceSpec>, compression: Compression) -> (r: Result<
    Vec<u8>,
    ArchiveError,
>)
    ensures
        r matches Ok(bytes) ==> (build_ok(sources.deep_view()) && (archive_entries(bytes@) matches
            Some(es) && entries_correspond(build_plan(sources.deep_view()), es))),
        !build_ok(sources.deep_view()) ==> (r matches Err(e) && e matches
            ArchiveError::InvalidName(_)),
        build_ok(sources.deep_view()) ==> (r matches Err(e) ==> e matches ArchiveError::Io(_)),
{
    let plan = match plan_build(sources) {
        Ok(p) => p,
        Err(e) => {
            return Err(e);
        },
    };
    let ghost pm = plan.deep_view();
    proof {
        lemma_build_plan_dirs_slashed(sources.deep_view());
    }
    let mut w = writer_new();
    let n: usize = plan.len();
    let mut i: usize = 0;
    proof {
        assert(pm.subrange(0, 0) =~= Seq::<PlannedModel>::empty());
    }
    while i < n
        invariant
            n == plan.len(),
            pm == plan.deep_view(),
            pm.len() == n,
            i <= n,
            build_ok(sources.deep_view()),
            plan_dirs_slashed(pm),
            writer_entries(w) == pm.subrange(0, i as int),
        decreases n - i,
    {
        proof {
            assert(pm[i as int] == plan@[i as int]@);
        }
        let e = &plan[i];
        let res = if e.is_dir {
            writer_add_directory(&mut w, e.name.as_str(), e.mode)
        } else {
            add_file_to_zip_with_permissions(
                &mut w,
                e.name.as_str(),
                e.mode,
                &e.content,
                compression,
            )
        };
        match res {
            Ok(_) => {
            },
            Err(ze) => {
                return Err(ArchiveError::Io(zip_error_text(&ze)));
            },
        }
        proof {
            assert(pm.subrange(0, i as int).push(pm[i as int]) =~= pm.subrange(0, i + 1));
        }
        i = i + 1;
    }
    proof {
        assert(pm.subrange(0, n as int) =~= pm);
    }
    match writer_finish(w) {
        Ok(bytes) => Ok(bytes),
        Err(ze) => Err(ArchiveError::Io(zip_error_text(&ze))),
    }
}

} // verus!
