//! The archive extraction pipeline.
//!
//! Extraction parses a container sequentially and turns it into a plan:
//! the directories to create — all of them before any file is written —
//! and the files to materialize, each with its contents and optional
//! permission bits.  An entry whose stored name could escape the
//! destination is skipped and the rest of the archive is still extracted.

use vstd::prelude::*;

use crate::codec::{archive_entries, read_archive_entries, zip_error_text};
use crate::entries::{EntryModel, RawEntry, copy_bytes};
use crate::errors::ArchiveError;
use crate::names::{ends_in_slash, is_dir_name, is_safe_entry_path, safe_entry_path};

verus! {

/// The model of one file to materialize.
pub struct ExtractedFileModel {
    pub rel_path: Seq<char>,
    pub content: Seq<u8>,
    pub mode: Option<u32>,
}

/// One file to materialize under the destination: its safe relative path,
/// its contents, and its permission bits when the container carried any.
#[derive(Debug)]
pub struct ExtractedFile {
    pub rel_path: String,
    pub content: Vec<u8>,
    pub mode: Option<u32>,
}

impl View for ExtractedFile {
    type V = ExtractedFileModel;

    open spec fn view(&self) -> ExtractedFileModel {
        ExtractedFileModel { rel_path: self.rel_path@, content: self.content@, mode: self.mode }
    }
}

impl DeepView for ExtractedFile {
    type V = ExtractedFileModel;

    open spec fn deep_view(&self) -> ExtractedFileModel {
        self.view()
    }
}

/// An extraction plan: every directory to create, then every file to
/// write.  The split is the order guarantee — a caller creates all of
/// `dirs` before it writes any of `files`.
#[derive(Debug)]
pub struct ExtractPlan {
    pub dirs: Vec<String>,
    pub files: Vec<ExtractedFile>,
}

/// The safe directory entries of a container, in container order, by their
/// `/`-terminated relative paths.
pub open spec fn extract_dirs(es: Seq<EntryModel>) -> Seq<Seq<char>>
    decreases es.len(),
{
    if es.len() == 0 {
        Seq::empty()
    } else {
        let prior = extract_dirs(es.drop_last());
        let e = es.last();
        if safe_entry_path(e.name) && is_dir_name(e.name) {
            prior.push(e.name)
        } else {
            prior
        }
    }
}

/// The safe file entries of a container, in container order.
pub open spec fn extract_files(es: Seq<EntryModel>) -> Seq<ExtractedFileModel>
    decreases es.len(),
{
    if es.len() == 0 {
        Seq::empty()
    } else {
        let prior = extract_files(es.drop_last());
        let e = es.last();
        if safe_entry_path(e.name) && !is_dir_name(e.name) {
            prior.push(ExtractedFileModel { rel_path: e.name, content: e.content, mode: e.mode })
        } else {
            prior
        }
    }
}

/// Classifies a container's entries into the extraction plan: a
/// `/`-terminated name is a pending directory, any other a pending file,
/// and an entry whose name fails the traversal check is skipped.
pub fn plan_extract(entries: &Vec<RawEntry>) -> (p: ExtractPlan)
    ensures
        p.dirs.deep_view() == extract_dirs(entries.deep_view()),
        p.files.deep_view() == extract_files(entries.deep_view()),
{
    let ghost ev = entries.deep_view();
    let n: usize = entries.len();
    let mut dirs: Vec<String> = Vec::new();
    let mut files: Vec<ExtractedFile> = Vec::new();
    let mut i: usize = 0;
    proof {
        assert(ev.subrange(0, 0) =~= Seq::<EntryModel>::empty());
    }
    while i < n
        invariant
            n == entries.len(),
            ev == entries.deep_view(),
            ev.len() == n,
            i <= n,
            dirs.deep_view() == extract_dirs(ev.subrange(0, i as int)),
            files.deep_view() == extract_files(ev.subrange(0, i as int)),
        decreases n - i,
    {
        proof {
            assert(ev.subrange(0, i + 1).drop_last() =~= ev.subrange(0, i as int));
            assert(ev.subrange(0, i + 1).last() == ev[i as int]);
            assert(ev[i as int] == entries@[i as int]@);
        }
        let e = &entries[i];
        if is_safe_entry_path(e.name.as_str()) {
            if ends_in_slash(e.name.as_str()) {
                let ghost pre = dirs.deep_view();
                dirs.push(e.name.clone());
                proof {
                    assert(dirs.deep_view() =~= pre.push(ev[i as int].name));
                }
            } else {
                let ghost pre = files.deep_view();
                files.push(
                    ExtractedFile {
                        rel_path: e.name.clone(),
                        content: copy_bytes(&e.content),
                        mode: e.mode,
                    },
                );
                proof {
                    assert(files.deep_view() =~= pre.push(
                        ExtractedFileModel {
                            rel_path: ev[i as int].name,
                            content: ev[i as int].content,
                            mode: ev[i as int].mode,
                        },
                    ));
                }
            }
        }
        i = i + 1;
    }
    proof {
        assert(ev.subrange(0, n as int) =~= ev);
    }
    ExtractPlan { dirs, files }
}

/// Parses an in-memory archive and plans its extraction.  The container is
/// scanned exactly once; a byte string the codec rejects is reported as
/// invalid data, and otherwise the plan covers exactly the archive's safe
/// entries.
pub fn unzip_files(archive: &Vec<u8>) -> (r: Result<ExtractPlan, ArchiveError>)
    ensures
        r matches Ok(p) ==> (archive_entries(archive@) matches Some(es) && p.dirs.deep_view()
            == extract_dirs(es) && p.files.deep_view() == extract_files(es)),
        r matches Err(e) ==> (archive_entries(archive@) is None && e matches
            ArchiveError::InvalidData(_)),
        archive_entries(archive@) is Some ==> r is Ok,
{
    match read_archive_entries(archive) {
        Ok(entries) => Ok(plan_extract(&entries)),
        Err(ze) => Err(ArchiveError::InvalidData(zip_error_text(&ze))),
    }
}

// ---------------------------------------------------------------------------
// Traversal safety
// ---------------------------------------------------------------------------

/// The zip-slip guarantee, both ways: every path an extraction plan holds
/// is enclosed in the destination — an entry whose stored name would
/// resolve outside it is never followed — and no safe entry is lost by
/// skipping unsafe ones: each keeps its contents and permission bits.
pub proof fn lemma_extract_plan_safe(es: Seq<EntryModel>)
    ensures
        forall|i: int|
            0 <= i < extract_dirs(es).len() ==> safe_entry_path(#[trigger] extract_dirs(es)[i]),
        forall|i: int|
            0 <= i < extract_files(es).len() ==> safe_entry_path(
                (#[trigger] extract_files(es)[i]).rel_path,
            ),
        forall|i: int|
            0 <= i < es.len() && safe_entry_path((#[trigger] es[i]).name) && is_dir_name(es[i].name)
                ==> extract_dirs(es).contains(es[i].name),
        forall|i: int|
            0 <= i < es.len() && safe_entry_path((#[trigger] es[i]).name) && !is_dir_name(
                es[i].name,
            ) ==> exists|j: int|
                0 <= j < extract_files(es).len() && (#[trigger] extract_files(es)[j]).rel_path
                    == es[i].name && extract_files(es)[j].content == es[i].content && extract_files(
                    es,
                )[j].mode == es[i].mode,
    decreases es.len(),
{
    if es.len() > 0 {
        lemma_extract_plan_safe(es.drop_last());
        let prior_d = extract_dirs(es.drop_last());
        let prior_f = extract_files(es.drop_last());
        assert forall|i: int| 0 <= i < extract_dirs(es).len() implies safe_entry_path(
            #[trigger] extract_dirs(es)[i],
        ) by {
            if i < prior_d.len() {
                assert(extract_dirs(es)[i] == prior_d[i]);
            } else {
                assert(extract_dirs(es)[i] == es.last().name);
            }
        }
        assert forall|i: int| 0 <= i < extract_files(es).len() implies safe_entry_path(
            (#[trigger] extract_files(es)[i]).rel_path,
        ) by {
            if i < prior_f.len() {
                assert(extract_files(es)[i] == prior_f[i]);
            }
        }
        assert forall|i: int|
            0 <= i < es.len() && safe_entry_path((#[trigger] es[i]).name) && is_dir_name(
                es[i].name,
            ) implies extract_dirs(es).contains(es[i].name) by {
            if i < es.len() - 1 {
                assert(es.drop_last()[i] == es[i]);
                assert(prior_d.contains(es[i].name));
                let j = choose|j: int| 0 <= j < prior_d.len() && prior_d[j] == es[i].name;
                assert(extract_dirs(es)[j] == es[i].name);
            } else {
                assert(es[i] == es.last());
                assert(extract_dirs(es).last() == es.last().name);
            }
        }
        assert forall|i: int|
            0 <= i < es.len() && safe_entry_path((#[trigger] es[i]).name) && !is_dir_name(
                es[i].name,
            ) implies exists|j: int|
            0 <= j < extract_files(es).len() && (#[trigger] extract_files(es)[j]).rel_path
                == es[i].name && extract_files(es)[j].content == es[i].content && extract_files(
                es,
            )[j].mode == es[i].mode by {
            if i < es.len() - 1 {
                assert(es.drop_last()[i] == es[i]);
                let j = choose|j: int|
                    0 <= j < prior_f.len() && (#[trigger] prior_f[j]).rel_path == es[i].name
                        && prior_f[j].content == es[i].content && prior_f[j].mode == es[i].mode;
                assert(extract_files(es)[j] == prior_f[j]);
            } else {
                assert(es[i] == es.last());
                let j = extract_files(es).len() - 1;
                assert(extract_files(es)[j].rel_path == es[i].name);
            }
        }
    }
}

} // verus!
