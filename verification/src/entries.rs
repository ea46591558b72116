use vstd::prelude::*;

verus! {

// ---------------------------------------------------------------------------
// Mathematical models
// ---------------------------------------------------------------------------

/// The model of one entry as read back from a container: its stored name,
/// its optional Unix mode, and its decompressed contents.
pub struct EntryModel {
    pub name: Seq<char>,
    pub mode: Option<u32>,
    pub content: Seq<u8>,
}

/// The model of one entry as handed to the container writer.
pub struct PlannedModel {
    pub name: Seq<char>,
    pub is_dir: bool,
    pub mode: u32,
    pub content: Seq<u8>,
}

/// The model of one filesystem item found under a source root.
pub struct WalkedModel {
    pub rel_path: Seq<char>,
    pub is_dir: bool,
    pub mode: u32,
    pub content: Seq<u8>,
}

/// The model of one source handed to the builder.
pub enum SourceModel {
    SingleFile { path: Seq<char>, mode: u32, content: Seq<u8> },
    DirectoryTree { path: Seq<char>, mode: u32, entries: Seq<WalkedModel> },
}

/// An entry read back corresponds to an entry written: same name and
/// contents, and a mode that is present and agrees on the low nine
/// permission bits (the container keeps no more of them).
pub open spec fn entry_corresponds(p: PlannedModel, e: EntryModel) -> bool {
    &&& e.name == p.name
    &&& e.content == p.content
    &&& e.mode matches Some(m) && (m & 0o777u32) == (p.mode & 0o777u32)
}

/// Pointwise correspondence of a written plan and the entries read back.
pub open spec fn entries_correspond(ps: Seq<PlannedModel>, es: Seq<EntryModel>) -> bool {
    &&& es.len() == ps.len()
    &&& forall|i: int| 0 <= i < ps.len() ==> entry_corresponds(ps[i], #[trigger] es[i])
}

// ---------------------------------------------------------------------------
// Executable data
// ---------------------------------------------------------------------------

/// One entry of the write plan a build produces: an archive entry name, the
/// directory flag its name implies, Unix permission bits, and contents
/// (empty for a directory).
pub struct PlannedEntry {
    pub name: String,
    pub is_dir: bool,
    pub mode: u32,
    pub content: Vec<u8>,
}

impl View for PlannedEntry {
    type V = PlannedModel;

    open spec fn view(&self) -> PlannedModel {
        PlannedModel {
            name: self.name@,
            is_dir: self.is_dir,
            mode: self.mode,
            content: self.content@,
        }
    }
}

impl DeepView for PlannedEntry {
    type V = PlannedModel;

    open spec fn deep_view(&self) -> PlannedModel {
        self.view()
    }
}

/// One entry as read back from a container.
pub struct RawEntry {
    pub name: String,
    pub mode: Option<u32>,
    pub content: Vec<u8>,
}

impl View for RawEntry {
    type V = EntryModel;

    open spec fn view(&self) -> EntryModel {
        EntryModel { name: self.name@, mode: self.mode, content: self.content@ }
    }
}

impl DeepView for RawEntry {
    type V = EntryModel;

    open spec fn deep_view(&self) -> EntryModel {
        self.view()
    }
}

/// One filesystem item found under a source root, read into memory: its
/// path relative to that root (`/`-separated, no trailing slash for files),
/// whether it is a directory, its Unix permission bits, and — for a file —
/// its contents.
pub struct WalkedEntry {
    pub rel_path: String,
    pub is_dir: bool,
    pub mode: u32,
    pub content: Vec<u8>,
}

impl View for WalkedEntry {
    type V = WalkedModel;

    open spec fn view(&self) -> WalkedModel {
        WalkedModel {
            rel_path: self.rel_path@,
            is_dir: self.is_dir,
            mode: self.mode,
            content: self.content@,
        }
    }
}

impl DeepView for WalkedEntry {
    type V = WalkedModel;

    open spec fn deep_view(&self) -> WalkedModel {
        self.view()
    }
}

/// One source to archive, already read into memory: either a single file,
/// or a directory tree together with the flat list of its descendants.
pub enum SourceSpec {
    SingleFile { path: String, mode: u32, content: Vec<u8> },
    DirectoryTree { path: String, mode: u32, entries: Vec<WalkedEntry> },
}

impl View for SourceSpec {
    type V = SourceModel;

    open spec fn view(&self) -> SourceModel {
        match self {
            SourceSpec::SingleFile { path, mode, content } => SourceModel::SingleFile {
                path: path@,
                mode: *mode,
                content: content@,
            },
            SourceSpec::DirectoryTree { path, mode, entries } => SourceModel::DirectoryTree {
                path: path@,
                mode: *mode,
                entries: entries.deep_view(),
            },
        }
    }
}

impl DeepView for SourceSpec {
    type V = SourceModel;

    open spec fn deep_view(&self) -> SourceModel {
        self.view()
    }
}

// ---------------------------------------------------------------------------
// Shared helpers
// ---------------------------------------------------------------------------

/// Copies a byte buffer.
pub fn copy_bytes(v: &Vec<u8>) -> (r: Vec<u8>)
    ensures
        r@ == v@,
{
    let mut out: Vec<u8> = Vec::new();
    let n: usize = v.len();
    let mut i: usize = 0;
    while i < n
        invariant
            n == v.len(),
            i <= n,
            out@ == v@.subrange(0, i as int),
        decreases n - i,
    {
        out.push(v[i]);
        proof {
            assert(v@.subrange(0, i as int).push(v@[i as int]) =~= v@.subrange(0, i + 1));
        }
        i = i + 1;
    }
    proof {
        assert(v@.subrange(0, n as int) =~= v@);
    }
    out
}

} // verus!
