//! Configuration values, the on-disk layout, and which root a path belongs to.
use crate::embed;
use crate::path;
use crate::text;
use vstd::prelude::*;

verus! {

/// How much of a file's content is embedded. Chosen per root, because a 5000-line driver and a
/// two-page form want very different budgets.
#[derive(Debug, Clone, Copy, PartialEq, Eq, Structural)]
pub enum Profile {
    /// Path, filename and the first ~256 tokens of extracted text. For document directories.
    Content,
    /// Path, filename and the first ~64 tokens. For large source trees, where the leading
    /// declarations identify a file and the middle contributes only noise.
    Code,
    /// Path and filename only. For media directories.
    NameOnly,
}

impl Profile {
    /// Token budget for the extracted body.
    pub open spec fn tokens(self) -> usize {
        match self {
            Profile::Content => 256,
            Profile::Code => 64,
            Profile::NameOnly => 0,
        }
    }

    /// The profile's name in the configuration.
    pub open spec fn name(self) -> Seq<char> {
        match self {
            Profile::Content => "content"@,
            Profile::Code => "code"@,
            Profile::NameOnly => "name-only"@,
        }
    }

    /// Token budget for the extracted-body portion of the embedded text.
    pub fn body_tokens(self) -> (r: usize)
        ensures
            r == self.tokens(),
    {
        match self {
            Profile::Content => 256,
            Profile::Code => 64,
            Profile::NameOnly => 0,
        }
    }

    /// The profile's name in the configuration.
    pub fn as_str(self) -> (r: &'static str)
        ensures
            r@ == self.name(),
    {
        match self {
            Profile::Content => "content",
            Profile::Code => "code",
            Profile::NameOnly => "name-only",
        }
    }

    /// The profile of that name.
    pub fn from_str_opt(s: &str) -> (r: Option<Self>)
        ensures
            match r {
                Some(p) => s@ == p.name(),
                None => s@ != Profile::Content.name() && s@ != Profile::Code.name() && s@
                    != Profile::NameOnly.name(),
            },
    {
        if text::same(s, "content") {
            Some(Profile::Content)
        } else if text::same(s, "code") {
            Some(Profile::Code)
        } else if text::same(s, "name-only") {
            Some(Profile::NameOnly)
        } else {
            None
        }
    }
}

/// Two profiles never share a name, so reading a profile's name gives that profile back.
pub proof fn profile_names_are_distinct(a: Profile, b: Profile)
    requires
        a.name() == b.name(),
    ensures
        a == b,
{
    reveal_strlit("content");
    reveal_strlit("code");
    reveal_strlit("name-only");
    assert("content"@.len() == 7);
    assert("code"@.len() == 4);
    assert("name-only"@.len() == 9);
}

/// Which compute device to run the model on.
#[derive(Debug, Clone, Copy, PartialEq, Eq, Structural)]
pub enum Device {
    /// CPU only.
    Cpu,
    /// Try the GPU, fall back to CPU with a warning if it is unavailable.
    Auto,
    /// Require the GPU; fail rather than silently running on the CPU.
    Gpu,
}

impl Default for Device {
    fn default() -> (r: Self)
        ensures
            r == Device::Cpu,
    {
        Device::Cpu
    }
}

impl Device {
    /// Whether the GPU is to be tried.
    pub fn wants_gpu(self) -> (r: bool)
        ensures
            r == (self == Device::Auto || self == Device::Gpu),
    {
        match self {
            Device::Cpu => false,
            Device::Auto => true,
            Device::Gpu => true,
        }
    }

    /// Whether falling back to CPU is acceptable.
    pub fn may_fall_back(self) -> (r: bool)
        ensures
            r == (self != Device::Gpu),
    {
        match self {
            Device::Cpu => true,
            Device::Auto => true,
            Device::Gpu => false,
        }
    }
}

/// When to look for changes on disk.
#[derive(Debug, Clone, Copy, PartialEq, Eq, Structural)]
pub enum Refresh {
    EveryRun,
    Daily,
    Weekly,
    Manual,
}

impl Refresh {
    /// Seconds after the last scan at which a rescan becomes due.
    pub open spec fn interval(self) -> Option<u64> {
        match self {
            Refresh::EveryRun => Some(0),
            Refresh::Daily => Some(86_400),
            Refresh::Weekly => Some(604_800),
            Refresh::Manual => None,
        }
    }

    /// Seconds after the last scan at which a rescan becomes due.
    pub fn interval_secs(self) -> (r: Option<u64>)
        ensures
            r == self.interval(),
    {
        match self {
            Refresh::EveryRun => Some(0),
            Refresh::Daily => Some(24 * 60 * 60),
            Refresh::Weekly => Some(7 * 24 * 60 * 60),
            Refresh::Manual => None,
        }
    }
}

/// A directory to index.
#[derive(Debug, Clone)]
pub struct Root {
    pub path: String,
    pub profile: Profile,
}

/// What is extracted from files.
#[derive(Debug, Clone, Copy, PartialEq, Eq, Structural)]
pub struct ExtractConfig {
    /// Read metadata of images, audio and video. Off by default: it spawns a process per file.
    pub media: bool,
    /// Resolve photo coordinates to place names. Needs `media`.
    pub geo: bool,
    /// Largest file opened for extraction.
    pub max_file_size_mb: u64,
    /// Kilobytes of a text file read before truncating.
    pub max_read_kb: u64,
    /// PDF pages read.
    pub pdf_pages: u32,
}

impl Default for ExtractConfig {
    fn default() -> (r: Self)
        ensures
            r == (ExtractConfig {
                media: false,
                geo: false,
                max_file_size_mb: 20,
                max_read_kb: 64,
                pdf_pages: 5,
            }),
    {
        ExtractConfig {
            media: false,
            geo: false,
            max_file_size_mb: 20,
            max_read_kb: 64,
            pdf_pages: 5,
        }
    }
}

/// What a walk leaves out.
#[derive(Debug, Clone)]
pub struct IgnoreConfig {
    /// Honour ignore files found while walking.
    pub use_gitignore: bool,
    /// Walk into dotfiles and dot-directories.
    pub hidden: bool,
    /// Follow symlinks. Off by default: cycles and duplicate work.
    pub follow_symlinks: bool,
    /// Extra glob patterns to skip, appended to the builtin list.
    pub extra: Vec<String>,
    /// Builtin patterns to not apply, for when a default is wrong for you.
    pub unignore: Vec<String>,
}

impl Default for IgnoreConfig {
    fn default() -> (r: Self)
        ensures
            r.use_gitignore,
            !r.hidden,
            !r.follow_symlinks,
            r.extra@.len() == 0,
            r.unignore@.len() == 0,
    {
        IgnoreConfig {
            use_gitignore: true,
            hidden: false,
            follow_symlinks: false,
            extra: Vec::new(),
            unignore: Vec::new(),
        }
    }
}

/// The user's configuration.
#[derive(Debug, Clone)]
pub struct Config {
    /// Model id, see the model registry.
    pub model: String,
    pub device: Device,
    pub refresh: Refresh,
    /// Results returned by a query.
    pub limit: usize,
    /// Overrides the model's own similarity floor; single-precision bits.
    pub min_similarity: Option<u32>,
    /// Reranker id, or `off`.
    pub reranker: String,
    pub roots: Vec<Root>,
    pub extract: ExtractConfig,
    pub ignore: IgnoreConfig,
}

impl Default for Config {
    fn default() -> (r: Self)
        ensures
            r.model@ == embed::DEFAULT_MODEL@,
            r.device == Device::Cpu,
            r.refresh == Refresh::Daily,
            r.limit == 40,
            r.min_similarity is None,
            r.reranker@ == "off"@,
            r.roots@.len() == 0,
            r.extract == (ExtractConfig {
                media: false,
                geo: false,
                max_file_size_mb: 20,
                max_read_kb: 64,
                pdf_pages: 5,
            }),
            r.ignore.use_gitignore,
            !r.ignore.hidden,
            !r.ignore.follow_symlinks,
            r.ignore.extra@.len() == 0,
            r.ignore.unignore@.len() == 0,
    {
        Config {
            model: embed::DEFAULT_MODEL.to_owned(),
            device: Device::Cpu,
            refresh: Refresh::Daily,
            limit: 40,
            min_similarity: None,
            reranker: "off".to_owned(),
            roots: Vec::new(),
            extract: ExtractConfig::default(),
            ignore: IgnoreConfig::default(),
        }
    }
}

/// How long a path's spelling is, in bytes.
pub open spec fn spelled_len(p: Seq<char>) -> int {
    vstd::utf8::encode_utf8(p).len() as int
}

/// How deep a path lies: how many components it has, however it is spelled.
pub open spec fn depth(p: Seq<char>) -> int {
    path::components(p).len() as int
}

/// Whether `a` is no more specific than `b`: it lies less deep, or as deep and is spelled no
/// longer.
pub open spec fn no_deeper(a: Seq<char>, b: Seq<char>) -> bool {
    depth(a) < depth(b) || (depth(a) == depth(b) && spelled_len(a) <= spelled_len(b))
}

/// Whether `a` is no more specific than `b`.
fn is_no_deeper(a: &str, b: &str) -> (r: bool)
    ensures
        r == no_deeper(a@, b@),
{
    let x: usize = depth_of(a);
    let y: usize = depth_of(b);
    x < y || (x == y && a.as_bytes().len() <= b.as_bytes().len())
}

/// How deep a path lies.
pub fn depth_of(p: &str) -> (r: usize)
    ensures
        r == depth(p@),
{
    let parts = path::components_of(p);
    proof {
        assert(text::views(parts@).len() == parts@.len());
    }
    parts.len()
}

/// Where the most specific of `roots` that contains `p` stands: the deepest one, of those that name
/// the same place the one that is spelled longest, and of equally long ones the last.
pub open spec fn deepest(roots: Seq<Seq<char>>, p: Seq<char>) -> Option<int>
    decreases roots.len(),
{
    if roots.len() == 0 {
        None
    } else {
        let before = deepest(roots.drop_last(), p);
        let i = roots.len() - 1;
        if !path::within(p, roots.last()) {
            before
        } else {
            match before {
                Some(j) => if no_deeper(roots[j], roots[i]) {
                    Some(i)
                } else {
                    Some(j)
                },
                None => Some(i),
            }
        }
    }
}

/// Finds the most specific of `roots` that contains `p`.
fn find_deepest(roots: &Vec<String>, p: &str) -> (r: Option<usize>)
    ensures
        match r {
            Some(i) => i < roots@.len() && deepest(text::views(roots@), p@) == Some(i as int),
            None => deepest(text::views(roots@), p@) is None,
        },
{
    let mut best: Option<usize> = None;
    let mut i: usize = 0;
    let ghost rs = text::views(roots@);
    while i < roots.len()
        invariant
            i <= roots@.len(),
            rs == text::views(roots@),
            rs.len() == roots@.len(),
            match best {
                Some(b) => b < i && deepest(rs.take(i as int), p@) == Some(b as int),
                None => deepest(rs.take(i as int), p@) is None,
            },
        decreases roots@.len() - i,
    {
        proof {
            assert(rs.take(i + 1).drop_last() =~= rs.take(i as int));
            assert(rs.take(i + 1).last() == roots@[i as int]@);
            assert(rs[i as int] == roots@[i as int]@);
        }
        if path::is_within(p, roots[i].as_str()) {
            match best {
                Some(b) => {
                    proof {
                        assert(rs.take(i + 1)[b as int] == roots@[b as int]@);
                    }
                    if is_no_deeper(roots[b].as_str(), roots[i].as_str()) {
                        best = Some(i);
                    }
                },
                None => {
                    best = Some(i);
                },
            }
        }
        i += 1;
    }
    proof {
        assert(rs.take(rs.len() as int) =~= rs);
    }
    best
}

/// The most specific configured root containing `p`, or `None` if it lies outside all of them.
///
/// The deepest root wins, so a nested root overrides its parent. `Config::profile_for` and the
/// directory rollup both depend on this rule, so it has one implementation.
pub fn deepest_root(roots: &Vec<String>, p: &str) -> (r: Option<String>)
    ensures
        match r {
            Some(q) => {
                &&& deepest(text::views(roots@), p@) is Some
                &&& q@ == text::views(roots@)[deepest(text::views(roots@), p@)->0]
            },
            None => deepest(text::views(roots@), p@) is None,
        },
{
    match find_deepest(roots, p) {
        Some(i) => Some(roots[i].as_str().to_owned()),
        None => None,
    }
}

/// The paths of the roots.
pub open spec fn root_paths(roots: Seq<Root>) -> Seq<Seq<char>> {
    roots.map_values(|r: Root| r.path@)
}

impl Config {
    /// The paths of the configured roots.
    pub fn roots_as_paths(&self) -> (r: Vec<String>)
        ensures
            text::views(r@) == root_paths(self.roots@),
    {
        let mut out: Vec<String> = Vec::new();
        let mut i: usize = 0;
        proof {
            assert(text::views(out@) =~= root_paths(self.roots@).take(0));
        }
        while i < self.roots.len()
            invariant
                i <= self.roots@.len(),
                text::views(out@) == root_paths(self.roots@).take(i as int),
            decreases self.roots@.len() - i,
        {
            let s = self.roots[i].path.as_str().to_owned();
            proof {
                text::lemma_views_push(out@, s);
                assert(root_paths(self.roots@).take(i + 1) =~= root_paths(self.roots@).take(
                    i as int,
                ).push(s@));
            }
            out.push(s);
            i += 1;
        }
        proof {
            assert(root_paths(self.roots@).take(self.roots@.len() as int) =~= root_paths(
                self.roots@,
            ));
        }
        out
    }

    /// The profile that applies to `p`: that of the most specific configured root containing it.
    pub fn profile_for(&self, p: &str) -> (r: Option<Profile>)
        ensures
            r == match deepest(root_paths(self.roots@), p@) {
                Some(i) => Some(self.roots@[i].profile),
                None => None,
            },
    {
        let paths = self.roots_as_paths();
        proof {
            assert(text::views(paths@).len() == paths@.len());
        }
        match find_deepest(&paths, p) {
            Some(i) => Some(self.roots[i].profile),
            None => None,
        }
    }

    /// Similarity floor for the configured model, unless overridden in the configuration; that of
    /// an unknown model is 0.55.
    pub open spec fn floor(&self) -> u32 {
        match self.min_similarity {
            Some(f) => f,
            None => match embed::registered(self.model@) {
                Some(m) => m.default_min_similarity,
                None => embed::FLOOR_055,
            },
        }
    }

    /// Similarity floor for the configured model, unless overridden in the configuration.
    pub fn resolved_min_similarity(&self) -> (r: u32)
        ensures
            r == self.floor(),
    {
        match self.min_similarity {
            Some(f) => f,
            None => match embed::lookup(self.model.as_str()) {
                Ok(m) => m.default_min_similarity,
                Err(_) => embed::FLOOR_055,
            },
        }
    }
}

/// The most specific root contains the path, and no root that contains it lies deeper.
pub proof fn lemma_deepest(roots: Seq<Seq<char>>, p: Seq<char>)
    ensures
        match deepest(roots, p) {
            Some(i) => {
                &&& 0 <= i < roots.len()
                &&& path::within(p, roots[i])
                &&& forall|j: int|
                    0 <= j < roots.len() && path::within(p, #[trigger] roots[j]) ==> no_deeper(
                        roots[j],
                        roots[i],
                    )
            },
            None => forall|j: int| 0 <= j < roots.len() ==> !path::within(p, #[trigger] roots[j]),
        },
    decreases roots.len(),
{
    if roots.len() > 0 {
        let init = roots.drop_last();
        lemma_deepest(init, p);
        assert forall|j: int| 0 <= j < roots.len() - 1 implies #[trigger] roots[j] == init[j] by {}
        assert(roots[roots.len() - 1] == roots.last());
    }
}

/// The most specific root wins, however the roots are spelled: it contains the path and lies within
/// every root that does; and where there is none, no root contains the path.
pub proof fn the_innermost_root_wins(roots: Seq<Seq<char>>, p: Seq<char>, j: int)
    requires
        0 <= j < roots.len(),
        path::within(p, roots[j]),
    ensures
        deepest(roots, p) matches Some(i) && 0 <= i < roots.len() && path::within(p, roots[i])
            && path::within(roots[i], roots[j]),
{
    lemma_deepest(roots, p);
    let i = deepest(roots, p)->0;
    let c = path::components(p);
    let a = path::components(roots[i]);
    let b = path::components(roots[j]);
    assert(no_deeper(roots[j], roots[i]));
    assert(a.take(b.len() as int) =~= c.take(b.len() as int));
}

// ------------------------------------------------------------------ locations

/// Resolved filesystem locations.
#[derive(Debug, Clone)]
pub struct Paths {
    pub config_dir: String,
    pub data_dir: String,
}

impl Paths {
    /// The home override puts both in one directory.
    pub fn at(home: &str) -> (r: Self)
        ensures
            r.config_dir@ == home@,
            r.data_dir@ == home@,
    {
        Paths { config_dir: home.to_owned(), data_dir: home.to_owned() }
    }

    pub fn data_dir(&self) -> (r: &str)
        ensures
            r@ == self.data_dir@,
    {
        self.data_dir.as_str()
    }

    pub fn config_file(&self) -> (r: String)
        ensures
            r@ == path::joined(self.config_dir@, "config.toml"@),
    {
        path::join(self.config_dir.as_str(), "config.toml")
    }

    pub fn db_file(&self) -> (r: String)
        ensures
            r@ == path::joined(self.data_dir@, "index.db"@),
    {
        path::join(self.data_dir.as_str(), "index.db")
    }

    pub fn file_vectors(&self) -> (r: String)
        ensures
            r@ == path::joined(self.data_dir@, "vectors_files.i8"@),
    {
        path::join(self.data_dir.as_str(), "vectors_files.i8")
    }

    pub fn dir_vectors(&self) -> (r: String)
        ensures
            r@ == path::joined(self.data_dir@, "vectors_dirs.i8"@),
    {
        path::join(self.data_dir.as_str(), "vectors_dirs.i8")
    }

    pub fn scan_lock(&self) -> (r: String)
        ensures
            r@ == path::joined(self.data_dir@, "scan.lock"@),
    {
        path::join(self.data_dir.as_str(), "scan.lock")
    }

    pub fn model_dir(&self, model_id: &str) -> (r: String)
        ensures
            r@ == path::joined(path::joined(self.data_dir@, "models"@), model_id@),
    {
        let models = path::join(self.data_dir.as_str(), "models");
        path::join(models.as_str(), model_id)
    }

    /// Every file derived from the filesystem, i.e. everything a rebuild may safely delete: the
    /// database, its two journals, and the two vector stores.
    pub fn derived_files(&self) -> (r: Vec<String>)
        ensures
            text::views(r@) == derived(self.data_dir@),
    {
        let db = self.db_file();
        proof {
            reveal_strlit("db-wal");
            reveal_strlit("db-shm");
            reveal_strlit("index.db-wal");
            reveal_strlit("index.db-shm");
            lemma_journal(self.data_dir@, "db-wal"@);
            lemma_journal(self.data_dir@, "db-shm"@);
            assert("index."@ + "db-wal"@ =~= "index.db-wal"@) by {
                reveal_strlit("index.");
            }
            assert("index."@ + "db-shm"@ =~= "index.db-shm"@) by {
                reveal_strlit("index.");
            }
        }
        let wal = path::with_extension(db.as_str(), "db-wal");
        let shm = path::with_extension(db.as_str(), "db-shm");
        let mut out: Vec<String> = Vec::new();
        out.push(db);
        out.push(wal);
        out.push(shm);
        out.push(self.file_vectors());
        out.push(self.dir_vectors());
        proof {
            assert(text::views(out@) =~= derived(self.data_dir@));
        }
        out
    }
}

/// The names of the derived files.
pub open spec fn derived_names() -> Seq<Seq<char>> {
    seq![
        "index.db"@,
        "index.db-wal"@,
        "index.db-shm"@,
        "vectors_files.i8"@,
        "vectors_dirs.i8"@,
    ]
}

/// The derived files under a data directory.
pub open spec fn derived(data_dir: Seq<char>) -> Seq<Seq<char>> {
    derived_names().map_values(|name: Seq<char>| path::joined(data_dir, name))
}

/// A journal lies beside the database.
proof fn lemma_journal(data_dir: Seq<char>, ext: Seq<char>)
    ensures
        path::with_extension_of(path::joined(data_dir, "index.db"@), ext) == path::joined(
            data_dir,
            "index."@ + ext,
        ),
{
    reveal_strlit("index.db");
    reveal_strlit("index.");
    reveal_with_fuel(path::last_index, 4);
    let f = "index.db"@;
    let p = path::joined(data_dir, f);
    path::lemma_joined_name(data_dir, f);
    assert(path::last_index(f, '.') == Some(5int));
    assert(path::with_extension_of(p, ext) =~= path::joined(data_dir, "index."@ + ext));
}

/// The derived names are names, no two the same, and none that of another file.
proof fn lemma_derived_names()
    ensures
        forall|i: int| 0 <= i < derived_names().len() ==> path::is_name(#[trigger] derived_names()[i]),
        derived_names().no_duplicates(),
        !derived_names().contains("config.toml"@),
        !derived_names().contains("scan.lock"@),
        !derived_names().contains("models"@),
        path::is_name("config.toml"@),
        path::is_name("scan.lock"@),
        path::is_name("models"@),
{
    reveal_strlit("index.db");
    reveal_strlit("index.db-wal");
    reveal_strlit("index.db-shm");
    reveal_strlit("vectors_files.i8");
    reveal_strlit("vectors_dirs.i8");
    reveal_strlit("config.toml");
    reveal_strlit("scan.lock");
    reveal_strlit("models");
    let n = derived_names();
    assert(n[0].len() == 8 && n[1].len() == 12 && n[2].len() == 12 && n[3].len() == 16
        && n[4].len() == 15);
    assert(n[1][9] == 'w' && n[2][9] == 's');
}

/// What a rebuild may delete is five different files, and none of what it must keep: not the
/// configuration, not the lock of a scan, and nothing among the models.
pub proof fn a_rebuild_keeps_what_is_not_derived(paths: Paths, i: int, j: int)
    requires
        0 <= i < j < derived(paths.data_dir@).len(),
    ensures
        derived(paths.data_dir@).len() == 5,
        derived(paths.data_dir@)[i] != derived(paths.data_dir@)[j],
        forall|k: int| #![trigger derived(paths.data_dir@)[k]]
            0 <= k < 5 ==> {
                let f = derived(paths.data_dir@)[k];
                &&& f != path::joined(paths.config_dir@, "config.toml"@)
                &&& f != path::joined(paths.data_dir@, "scan.lock"@)
                &&& !path::within(f, path::joined(paths.data_dir@, "models"@))
            },
{
    let d = paths.data_dir@;
    let n = derived_names();
    lemma_derived_names();
    path::lemma_joined_name(d, n[i]);
    path::lemma_joined_name(d, n[j]);
    assert(derived(d)[i] == path::joined(d, n[i]));
    assert(derived(d)[j] == path::joined(d, n[j]));
    assert forall|k: int| #![trigger derived(d)[k]] 0 <= k < 5 implies {
        let f = derived(d)[k];
        &&& f != path::joined(paths.config_dir@, "config.toml"@)
        &&& f != path::joined(d, "scan.lock"@)
        &&& !path::within(f, path::joined(d, "models"@))
    } by {
        let f = derived(d)[k];
        let name = n[k];
        assert(f == path::joined(d, name));
        assert(n.contains(name));
        path::lemma_joined_name(d, name);
        path::lemma_joined_name(paths.config_dir@, "config.toml"@);
        path::lemma_joined_name(d, "scan.lock"@);
        path::lemma_joined_name(d, "models"@);
        let c = path::components(d);
        assert(c.push(name).take(c.push("models"@).len() as int) =~= c.push(name));
        assert(c.push(name).last() == name);
        assert(c.push("models"@).last() == "models"@);
    }
}

// ------------------------------------------------------------------ typed paths

/// Why a path could not be expanded: there is no home directory to put for `~`.
#[derive(Debug, Clone, Copy, PartialEq, Eq, Structural)]
pub struct NoHome;

impl NoHome {
    /// What the user is told.
    pub fn message(&self) -> (r: &'static str)
        ensures
            r@ == "$HOME is not set, cannot expand `~`"@,
    {
        "$HOME is not set, cannot expand `~`"
    }
}

/// The home directory that the environment names, if it names one.
pub open spec fn home_of(home: Option<String>) -> Option<Seq<char>> {
    match home {
        Some(h) => if h@.len() > 0 {
            Some(h@)
        } else {
            None
        },
        None => None,
    }
}

/// Whether `s` asks for the home directory: `~` alone, or `~/` and more.
pub open spec fn wants_home(s: Seq<char>) -> bool {
    s == seq!['~'] || (s.len() >= 2 && s[0] == '~' && s[1] == '/')
}

/// `s` with a leading `~` replaced.
pub open spec fn untilded(s: Seq<char>, home: Seq<char>) -> Seq<char> {
    if s == seq!['~'] {
        home
    } else if wants_home(s) {
        path::joined(home, s.skip(2))
    } else {
        s
    }
}

/// The absolute path that `s` stands for.
pub open spec fn expanded(s: Seq<char>, home: Seq<char>, cwd: Seq<char>) -> Seq<char> {
    let p = untilded(s, home);
    if path::absolute(p) {
        path::normal(p)
    } else {
        path::normal(path::joined(cwd, p))
    }
}

/// Expands a leading `~` and makes the path absolute, without requiring it to exist yet.
pub fn expand_path(s: &str, home: &Option<String>, cwd: &str) -> (r: Result<String, NoHome>)
    ensures
        match r {
            Ok(p) => {
                &&& wants_home(s@) ==> home_of(*home) is Some
                &&& p@ == expanded(
                    s@,
                    match home_of(*home) {
                        Some(h) => h,
                        None => Seq::<char>::empty(),
                    },
                    cwd@,
                )
            },
            Err(_) => wants_home(s@) && home_of(*home) is None,
        },
{
    let cs = text::chars_of(s);
    let alone = cs.len() == 1 && cs[0] == '~';
    let slash = cs.len() >= 2 && cs[0] == '~' && cs[1] == '/';
    proof {
        if alone {
            assert(s@ =~= seq!['~']);
        }
        if s@ == seq!['~'] {
            assert(s@[0] == '~');
        }
    }
    let p = if alone || slash {
        let h = match home {
            Some(h) => {
                if h.as_str().is_empty() {
                    return Err(NoHome);
                }
                h.as_str()
            },
            None => {
                return Err(NoHome);
            },
        };
        if alone {
            h.to_owned()
        } else {
            let rest = text::from_chars(&cs[2..cs.len()]);
            proof {
                assert(rest@ =~= s@.skip(2));
            }
            path::join(h, rest.as_str())
        }
    } else {
        s.to_owned()
    };
    if path::is_absolute(p.as_str()) {
        Ok(path::normalise(p.as_str()))
    } else {
        let full = path::join(cwd, p.as_str());
        Ok(path::normalise(full.as_str()))
    }
}

/// A path that is typed stands for itself, from the working directory on where it does not begin
/// with a slash; `~` stands for the home directory, and so does one before a slash.
pub proof fn typed_paths_stand_for_places(s: Seq<char>, home: Seq<char>, cwd: Seq<char>)
    ensures
        path::absolute(s) ==> expanded(s, home, cwd) == path::normal(s),
        path::absolute(home) ==> expanded(seq!['~'], home, cwd) == path::normal(home),
        path::absolute(path::joined(home, s)) ==> expanded(seq!['~', '/'] + s, home, cwd)
            == path::normal(path::joined(home, s)),
        !path::absolute(s) && (s.len() == 0 || s[0] != '~') ==> expanded(s, home, cwd)
            == path::normal(path::joined(cwd, s)),
        s.len() > 1 && s[0] == '~' && s[1] != '/' ==> expanded(s, home, cwd) == path::normal(
            path::joined(cwd, s),
        ),
        wants_home(s) <==> s == seq!['~'] || (s.len() > 1 && s.take(2) == seq!['~', '/']),
{
    let t = seq!['~', '/'] + s;
    assert(t.skip(2) =~= s);
    assert(t[0] == '~' && t[1] == '/');
    assert(t.len() != 1);
    let one = seq!['~'];
    assert(one.len() == 1);
    assert(one[0] == '~');
    if s.len() > 1 {
        assert(s.take(2)[0] == s[0] && s.take(2)[1] == s[1]);
        if s[0] == '~' && s[1] == '/' {
            assert(s.take(2) =~= seq!['~', '/']);
        }
    }
}

/// An empty home directory is none.
pub proof fn an_empty_home_is_none(home: String)
    ensures
        home_of(None) is None,
        home@.len() == 0 ==> home_of(Some(home)) is None,
        home@.len() > 0 ==> home_of(Some(home)) == Some(home@),
{
}

/// The names of the profiles.
pub proof fn profiles_are_named()
    ensures
        Profile::Content.name() == "content"@,
        Profile::Code.name() == "code"@,
        Profile::NameOnly.name() == "name-only"@,
{
}

/// The floor of a search is the one that is configured, else that of the model, else 0.55.
pub proof fn the_floor_is_that_of_the_model(c: Config)
    ensures
        c.min_similarity is Some ==> c.floor() == c.min_similarity->0,
        c.min_similarity is None && embed::registered(c.model@) is Some ==> c.floor()
            == embed::registered(c.model@)->0.default_min_similarity,
        c.min_similarity is None && embed::registered(c.model@) is None ==> c.floor() == 0x3f0c_cccd,
{
}

/// The roots' paths are their own, in order.
pub proof fn roots_keep_their_paths(roots: Seq<Root>, i: int)
    requires
        0 <= i < roots.len(),
    ensures
        root_paths(roots).len() == roots.len(),
        root_paths(roots)[i] == roots[i].path@,
{
}

/// The derived files are these, all in the data directory.
pub proof fn the_derived_files_are_these(data_dir: Seq<char>)
    ensures
        derived(data_dir) == seq![
            path::joined(data_dir, "index.db"@),
            path::joined(data_dir, "index.db-wal"@),
            path::joined(data_dir, "index.db-shm"@),
            path::joined(data_dir, "vectors_files.i8"@),
            path::joined(data_dir, "vectors_dirs.i8"@),
        ],
{
    assert(derived(data_dir) =~= seq![
        path::joined(data_dir, "index.db"@),
        path::joined(data_dir, "index.db-wal"@),
        path::joined(data_dir, "index.db-shm"@),
        path::joined(data_dir, "vectors_files.i8"@),
        path::joined(data_dir, "vectors_dirs.i8"@),
    ]);
}

/// A path goes by the profile of the innermost root that holds it, and by none outside all roots.
pub proof fn a_path_goes_by_its_innermost_root(cfg: Config, p: &str, r: Option<Profile>, i: int)
    requires
        call_ensures(Config::profile_for, (&cfg, p), r),
        0 <= i < cfg.roots@.len(),
    ensures
        r is None ==> !path::within(p@, cfg.roots@[i].path@),
        path::within(p@, cfg.roots@[i].path@) && (forall|j: int|
            0 <= j < cfg.roots@.len() && j != i ==> !path::within(
                p@,
                (#[trigger] cfg.roots@[j]).path@,
            )) ==> r == Some(cfg.roots@[i].profile),
{
    let roots = root_paths(cfg.roots@);
    lemma_deepest(roots, p@);
    assert(roots[i] == cfg.roots@[i].path@);
    if let Some(k) = deepest(roots, p@) {
        assert(roots[k] == cfg.roots@[k].path@);
    }
}

/// How much of a file a profile keeps, in tokens: content more than code, and names nothing at all.
pub proof fn profiles_have_their_budgets()
    ensures
        Profile::Content.tokens() == 256,
        Profile::Code.tokens() == 64,
        Profile::NameOnly.tokens() == 0,
{
}

} // verus!
