//! Which files a scan looks at: the ignore rules, what a quick look at a tree suggests, and which
//! roots to walk.
use crate::chars;
use crate::config::{IgnoreConfig, Profile};
use crate::lexical;
use crate::lexical::ByPath;
use crate::order;
use crate::order::{sorted_positions, Order};
use crate::path;
use crate::text;
use vstd::prelude::*;
use vstd::relations::*;

verus! {

/// Patterns skipped unless the user unignores them. Two groups: directories that are caches or
/// dependency trees, and file types with no retrievable text.
pub const BUILTIN_IGNORES: [&'static str; 86] = [
    // Version control and editor state.
    ".git/",
    ".hg/",
    ".svn/",
    ".bzr/",
    ".jj/",
    // Language and build caches.
    "node_modules/",
    "__pycache__/",
    ".mypy_cache/",
    ".pytest_cache/",
    ".ruff_cache/",
    ".tox/",
    ".venv/",
    "venv/",
    "site-packages/",
    "target/debug/",
    "target/release/",
    ".gradle/",
    ".m2/",
    ".cargo/registry/",
    ".rustup/",
    ".npm/",
    ".pnpm-store/",
    ".yarn/",
    ".next/",
    ".nuxt/",
    ".svelte-kit/",
    ".terraform/",
    "vendor/",
    "third_party/",
    // Generic cache and trash locations.
    ".cache/",
    ".local/share/Trash/",
    ".thumbnails/",
    ".Trash-*/",
    // Compiled objects and archives: no text worth embedding.
    "*.pyc",
    "*.pyo",
    "*.o",
    "*.a",
    "*.so",
    "*.so.*",
    "*.ko",
    "*.obj",
    "*.lib",
    "*.dll",
    "*.dylib",
    "*.class",
    "*.jar",
    "*.war",
    "*.rlib",
    "*.rmeta",
    "*.d",
    "*.cmd",
    "*.gcda",
    "*.gcno",
    // Archives and images: opaque blobs.
    "*.tar",
    "*.tar.*",
    "*.tgz",
    "*.gz",
    "*.bz2",
    "*.xz",
    "*.zst",
    "*.7z",
    "*.rar",
    "*.deb",
    "*.rpm",
    "*.apk",
    "*.AppImage",
    "*.iso",
    "*.img",
    "*.qcow2",
    "*.vmdk",
    "*.dmg",
    // Machine-generated bookkeeping.
    "*.lock",
    "*.pack",
    "*.idx",
    "*.map",
    "*.min.js",
    "*.min.css",
    "*.mo",
    "*.pdb",
    "*.sqlite-wal",
    "*.sqlite-shm",
    // Fonts.
    "*.woff",
    "*.woff2",
    "*.ttf",
    "*.otf",
    "*.eot",
];

/// Extensions counted as source code when detecting a root's profile.
pub const SOURCE_EXTS: [&'static str; 55] = [
    "c", "h", "cc", "cpp", "cxx", "hpp", "hh", "py", "rs", "go", "js", "mjs", "cjs", "ts", "tsx",
    "jsx", "java", "kt", "kts", "scala", "swift", "m", "mm", "cs", "rb", "php", "pl", "pm", "lua",
    "sh", "bash", "zsh", "fish", "sql", "s", "asm", "dts", "dtsi", "vhd", "v", "sv", "ex", "exs",
    "erl", "hs", "ml", "clj", "jl", "r", "f90", "for", "pas", "zig", "nim", "dart",
];

/// A file the walker decided to index.
#[derive(Debug, Clone)]
pub struct Found {
    pub path: String,
    pub size: u64,
    pub mtime_ns: i64,
}

// ------------------------------------------------------------------ ignore rules

/// Whether `list` holds the text `s`.
pub open spec fn lists(list: Seq<&'static str>, s: Seq<char>) -> bool {
    exists|i: int| 0 <= i < list.len() && #[trigger] list[i]@ == s
}

/// The first `n` built-in patterns that the user did not unignore, each as an exclusion.
pub open spec fn builtin_globs(n: nat, unignore: Seq<Seq<char>>) -> Seq<Seq<char>>
    decreases n,
{
    if n == 0 {
        seq![]
    } else {
        let before = builtin_globs((n - 1) as nat, unignore);
        let pat = BUILTIN_IGNORES@[n - 1]@;
        if unignore.contains(pat) {
            before
        } else {
            before.push(seq!['!'] + pat)
        }
    }
}

/// The exclusion globs for a walk: the built-in patterns but those the user unignored, then the
/// user's own. A bare glob would select; the leading `!` makes it exclude.
pub open spec fn globs(unignore: Seq<Seq<char>>, extra: Seq<Seq<char>>) -> Seq<Seq<char>> {
    builtin_globs(BUILTIN_IGNORES@.len(), unignore) + extra.map_values(
        |pat: Seq<char>| seq!['!'] + pat,
    )
}

fn excluding(pat: &str) -> (r: String)
    ensures
        r@ == seq!['!'] + pat@,
{
    let mut s = String::new();
    s.push('!');
    s.append(pat);
    proof {
        assert(s@ =~= seq!['!'] + pat@);
    }
    s
}

fn holds_text(v: &Vec<String>, s: &str) -> (r: bool)
    ensures
        r == text::views(v@).contains(s@),
{
    let mut i: usize = 0;
    while i < v.len()
        invariant
            i <= v@.len(),
            forall|k: int| 0 <= k < i ==> (#[trigger] v@[k])@ != s@,
        decreases v@.len() - i,
    {
        if text::same(v[i].as_str(), s) {
            proof {
                assert(text::views(v@)[i as int] == s@);
            }
            return true;
        }
        i += 1;
    }
    proof {
        if text::views(v@).contains(s@) {
            let k = choose|k: int| 0 <= k < text::views(v@).len() && text::views(v@)[k] == s@;
            assert(v@[k]@ == s@);
        }
    }
    false
}

/// The exclusion globs for a walk.
pub fn ignore_globs(ic: &IgnoreConfig) -> (r: Vec<String>)
    ensures
        text::views(r@) == globs(text::views(ic.unignore@), text::views(ic.extra@)),
{
    let builtin = BUILTIN_IGNORES;
    let ghost un = text::views(ic.unignore@);
    let mut out: Vec<String> = Vec::new();
    let mut i: usize = 0;
    proof {
        assert(text::views(out@) =~= builtin_globs(0, un));
    }
    while i < builtin.len()
        invariant
            builtin@ == BUILTIN_IGNORES@,
            i <= builtin@.len(),
            un == text::views(ic.unignore@),
            text::views(out@) == builtin_globs(i as nat, un),
        decreases builtin@.len() - i,
    {
        let pat = builtin[i];
        if !holds_text(&ic.unignore, pat) {
            let g = excluding(pat);
            proof {
                text::lemma_views_push(out@, g);
            }
            out.push(g);
        }
        i += 1;
    }
    let ghost head = text::views(out@);
    let ghost more = text::views(ic.extra@).map_values(|pat: Seq<char>| seq!['!'] + pat);
    let mut j: usize = 0;
    proof {
        assert(head =~= head + more.take(0));
    }
    while j < ic.extra.len()
        invariant
            more == text::views(ic.extra@).map_values(|pat: Seq<char>| seq!['!'] + pat),
            more.len() == ic.extra@.len(),
            j <= ic.extra@.len(),
            text::views(out@) == head + more.take(j as int),
        decreases ic.extra@.len() - j,
    {
        let g = excluding(ic.extra[j].as_str());
        proof {
            text::lemma_views_push(out@, g);
            assert(more[j as int] == g@);
            assert((head + more.take(j as int)).push(g@) =~= head + more.take(j + 1));
        }
        out.push(g);
        j += 1;
    }
    proof {
        assert(more.take(more.len() as int) =~= more);
    }
    out
}

/// The size in bytes above which a file is skipped, where it can be counted.
pub fn size_limit(max_file_size_mb: u64) -> (r: Option<u64>)
    ensures
        match r {
            Some(n) => n == max_file_size_mb * 1048576,
            None => max_file_size_mb * 1048576 > u64::MAX,
        },
{
    max_file_size_mb.checked_mul(1048576)
}

/// `n` brought into the range of an `i64`.
pub open spec fn saturated(n: int) -> int {
    if n > i64::MAX {
        i64::MAX as int
    } else if n < i64::MIN {
        i64::MIN as int
    } else {
        n
    }
}

/// A modification time in nanoseconds, from its seconds and the nanoseconds beyond them.
pub fn mtime_ns(secs: i64, nsec: i64) -> (r: i64)
    ensures
        r == saturated(saturated(secs * 1_000_000_000) + nsec),
{
    let a: i128 = secs as i128 * 1_000_000_000i128;
    let hi: i128 = i64::MAX as i128;
    let lo: i128 = i64::MIN as i128;
    let b: i128 = if a > hi {
        hi
    } else if a < lo {
        lo
    } else {
        a
    };
    let c: i128 = b + nsec as i128;
    if c > hi {
        i64::MAX
    } else if c < lo {
        i64::MIN
    } else {
        c as i64
    }
}

// ------------------------------------------------------------------ probing

/// Files a probe looks at before giving up and assuming a large tree.
///
/// `Probe::suggest` keys off `truncated`, which this value defines.
pub const PROBE_CAP: usize = 60_000;

/// What a cheap look at a directory suggests about how to index it.
#[derive(Debug, Clone, Copy, PartialEq, Eq, Structural)]
pub struct Probe {
    /// Files seen, capped at the probe limit.
    pub files: usize,
    /// True if the walk stopped early, so `files` is a floor and not a total.
    pub truncated: bool,
    pub source_files: usize,
}

impl Probe {
    /// Whether a tree counts as code: large, or more than six in ten of its files are source.
    pub open spec fn is_code(self) -> bool {
        self.truncated || self.files > 20_000 || self.source_files * 5 > self.files * 3
    }

    /// Profile suggested for a root with these characteristics.
    ///
    /// Large or source-dominated trees get `Code`: for a long driver the leading declarations
    /// identify the file and the rest is noise, so the cheaper profile is also the more accurate
    /// one.
    pub fn suggest(&self) -> (r: Profile)
        ensures
            r == if self.is_code() {
                Profile::Code
            } else {
                Profile::Content
            },
    {
        if self.truncated || self.files > 20_000 || self.source_files as u128 * 5
            > self.files as u128 * 3 {
            Profile::Code
        } else {
            Profile::Content
        }
    }

    /// A probe that has seen nothing.
    pub fn start() -> (r: Self)
        ensures
            r == (Probe { files: 0, truncated: false, source_files: 0 }),
    {
        Probe { files: 0, truncated: false, source_files: 0 }
    }

    /// Counts one more file; says whether the probe has seen enough.
    pub fn see(&mut self, p: &str) -> (stop: bool)
        requires
            old(self).files < usize::MAX,
            old(self).source_files < usize::MAX,
        ensures
            final(self).files == old(self).files + 1,
            final(self).source_files == old(self).source_files + if source_path(p@) {
                1int
            } else {
                0
            },
            stop == (final(self).files >= PROBE_CAP),
            final(self).truncated == (old(self).truncated || stop),
    {
        self.files = self.files + 1;
        if is_source(p) {
            self.source_files = self.source_files + 1;
        }
        let stop = self.files >= PROBE_CAP;
        if stop {
            self.truncated = true;
        }
        stop
    }

    /// The probe with its count capped.
    pub fn finish(self) -> (r: Self)
        ensures
            r == (Probe {
                files: if self.files < PROBE_CAP {
                    self.files
                } else {
                    PROBE_CAP
                },
                ..self
            }),
    {
        Probe {
            files: if self.files < PROBE_CAP {
                self.files
            } else {
                PROBE_CAP
            },
            truncated: self.truncated,
            source_files: self.source_files,
        }
    }
}

/// Whether a path's extension, in lower case, is that of source code.
pub open spec fn source_path(p: Seq<char>) -> bool {
    match path::extension_of(p) {
        Some(e) => lists(SOURCE_EXTS@, chars::ascii_lower(e)),
        None => false,
    }
}

/// Whether a path's extension is that of source code.
pub fn is_source(p: &str) -> (r: bool)
    ensures
        r == source_path(p@),
{
    match path::extension(p) {
        None => false,
        Some(e) => {
            let e = chars::to_ascii_lowercase(e.as_str());
            let exts = SOURCE_EXTS;
            let mut i: usize = 0;
            while i < exts.len()
                invariant
                    exts@ == SOURCE_EXTS@,
                    source_path(p@) == lists(SOURCE_EXTS@, e@),
                    i <= exts@.len(),
                    forall|k: int| 0 <= k < i ==> (#[trigger] exts@[k])@ != e@,
                decreases exts@.len() - i,
            {
                if text::same(exts[i], e.as_str()) {
                    proof {
                        assert(SOURCE_EXTS@[i as int]@ == e@);
                    }
                    return true;
                }
                i += 1;
            }
            proof {
                if lists(SOURCE_EXTS@, e@) {
                    let k = choose|k: int|
                        0 <= k < SOURCE_EXTS@.len() && #[trigger] SOURCE_EXTS@[k]@ == e@;
                    assert(exts@[k]@ == e@);
                }
            }
            false
        },
    }
}

// ------------------------------------------------------------------ nested roots

/// The positions in `order` whose path lies within none of those kept before it.
pub open spec fn outermost(paths: Seq<Seq<char>>, order: Seq<usize>) -> Seq<usize>
    decreases order.len(),
{
    if order.len() == 0 {
        seq![]
    } else {
        let kept = outermost(paths, order.drop_last());
        if covered(paths, kept, paths[order.last() as int]) {
            kept
        } else {
            kept.push(order.last())
        }
    }
}

/// Whether `p` lies within one of the kept paths.
pub open spec fn covered(paths: Seq<Seq<char>>, kept: Seq<usize>, p: Seq<char>) -> bool {
    exists|i: int| 0 <= i < kept.len() && path::within(p, paths[#[trigger] kept[i] as int])
}

fn is_covered(paths: &Vec<String>, kept: &Vec<usize>, p: &str) -> (r: bool)
    requires
        forall|i: int| 0 <= i < kept@.len() ==> (#[trigger] kept@[i]) < paths@.len(),
    ensures
        r == covered(text::views(paths@), kept@, p@),
{
    let mut i: usize = 0;
    while i < kept.len()
        invariant
            forall|i: int| 0 <= i < kept@.len() ==> (#[trigger] kept@[i]) < paths@.len(),
            i <= kept@.len(),
            forall|k: int|
                0 <= k < i ==> !path::within(
                    p@,
                    text::views(paths@)[#[trigger] kept@[k] as int],
                ),
        decreases kept@.len() - i,
    {
        let k: usize = kept[i];
        proof {
            assert(text::views(paths@)[k as int] == paths@[k as int]@);
        }
        if path::is_within(p, paths[k].as_str()) {
            proof {
                assert(path::within(p@, text::views(paths@)[kept@[i as int] as int]));
            }
            return true;
        }
        i += 1;
    }
    false
}

/// The positions in `order` whose path lies within none of those kept before it.
pub fn keep_outermost(paths: &Vec<String>, order: &Vec<usize>) -> (r: Vec<usize>)
    requires
        forall|i: int| 0 <= i < order@.len() ==> (#[trigger] order@[i]) < paths@.len(),
    ensures
        r@ == outermost(text::views(paths@), order@),
        forall|i: int| 0 <= i < r@.len() ==> (#[trigger] r@[i]) < paths@.len(),
{
    let mut kept: Vec<usize> = Vec::new();
    let mut i: usize = 0;
    let ghost ps = text::views(paths@);
    while i < order.len()
        invariant
            ps == text::views(paths@),
            forall|i: int| 0 <= i < order@.len() ==> (#[trigger] order@[i]) < paths@.len(),
            forall|i: int| 0 <= i < kept@.len() ==> (#[trigger] kept@[i]) < paths@.len(),
            i <= order@.len(),
            kept@ == outermost(ps, order@.take(i as int)),
        decreases order@.len() - i,
    {
        let k: usize = order[i];
        proof {
            assert(order@.take(i + 1).drop_last() =~= order@.take(i as int));
            assert(order@.take(i + 1).last() == k);
            assert(ps[k as int] == paths@[k as int]@);
        }
        if !is_covered(paths, &kept, paths[k].as_str()) {
            kept.push(k);
        }
        i += 1;
    }
    proof {
        assert(order@.take(order@.len() as int) =~= order@);
    }
    kept
}

/// A path lies within itself, and within any other spelling of it.
pub proof fn lemma_within_itself(p: Seq<char>)
    ensures
        path::within(p, p),
        forall|q: Seq<char>|
            path::components(q) == path::components(p) ==> #[trigger] path::within(p, q),
{
    let c = path::components(p);
    assert(c.take(c.len() as int) =~= c);
}

/// What lies within a path that lies within another lies within the other.
pub proof fn lemma_within_transitive(p: Seq<char>, q: Seq<char>, r: Seq<char>)
    requires
        path::within(p, q),
        path::within(q, r),
    ensures
        path::within(p, r),
{
    let a = path::components(p);
    let b = path::components(q);
    let c = path::components(r);
    assert(a.take(c.len() as int) =~= b.take(c.len() as int)) by {
        assert forall|i: int| 0 <= i < c.len() implies a[i] == b[i] by {
            assert(a.take(b.len() as int)[i] == b[i]);
        }
    }
}

/// What is kept comes from `order`, and everything in `order` lies within something kept.
pub proof fn lemma_outermost_covers(paths: Seq<Seq<char>>, order: Seq<usize>)
    ensures
        forall|i: int|
            0 <= i < outermost(paths, order).len() ==> order.contains(
                #[trigger] outermost(paths, order)[i],
            ),
        forall|a: int|
            0 <= a < order.len() ==> covered(
                paths,
                outermost(paths, order),
                paths[#[trigger] order[a] as int],
            ),
    decreases order.len(),
{
    if order.len() > 0 {
        let init = order.drop_last();
        let before = outermost(paths, init);
        let kept = outermost(paths, order);
        let x = order.last();
        let p = paths[x as int];
        lemma_outermost_covers(paths, init);
        assert forall|i: int| 0 <= i < kept.len() implies order.contains(#[trigger] kept[i]) by {
            if i < before.len() {
                assert(init.contains(before[i]));
                let k = choose|k: int| 0 <= k < init.len() && init[k] == before[i];
                assert(order[k] == kept[i]);
            } else {
                assert(order[order.len() - 1] == kept[i]);
            }
        }
        assert forall|a: int| 0 <= a < order.len() implies covered(
            paths,
            kept,
            paths[#[trigger] order[a] as int],
        ) by {
            if a < init.len() {
                assert(init[a] == order[a]);
                let k = choose|k: int|
                    0 <= k < before.len() && path::within(
                        paths[init[a] as int],
                        paths[#[trigger] before[k] as int],
                    );
                assert(kept[k] == before[k]);
            } else if !covered(paths, before, p) {
                assert(kept[before.len() as int] == x);
                lemma_within_itself(p);
                assert(path::within(p, paths[kept[before.len() as int] as int]));
            }
        }
    }
}

/// What is kept stands in the order it has in `order`, and none of it lies within what was kept
/// before it.
pub proof fn lemma_outermost_order(
    paths: Seq<Seq<char>>,
    order: Seq<usize>,
    rel: spec_fn(usize, usize) -> bool,
)
    requires
        sorted_by(order, rel),
    ensures
        sorted_by(outermost(paths, order), rel),
        forall|i: int, j: int|
            0 <= i < j < outermost(paths, order).len() ==> !path::within(
                paths[#[trigger] outermost(paths, order)[j] as int],
                paths[#[trigger] outermost(paths, order)[i] as int],
            ),
    decreases order.len(),
{
    if order.len() > 0 {
        let init = order.drop_last();
        let before = outermost(paths, init);
        let kept = outermost(paths, order);
        lemma_outermost_order(paths, init, rel);
        lemma_outermost_covers(paths, init);
        assert forall|i: int, j: int| 0 <= i < j < kept.len() implies #[trigger] rel(
            kept[i],
            kept[j],
        ) by {
            if j < before.len() {
                assert(rel(before[i], before[j]));
            } else {
                assert(init.contains(before[i]));
                let k = choose|k: int| 0 <= k < init.len() && init[k] == before[i];
                assert(rel(order[k], order[order.len() - 1]));
            }
        }
    }
}

/// Nothing kept lies within what came before it in `order`.
pub proof fn lemma_outermost_fresh(paths: Seq<Seq<char>>, order: Seq<usize>, a: int, b: int)
    requires
        order.no_duplicates(),
        0 <= a < b < order.len(),
        outermost(paths, order).contains(order[b]),
    ensures
        !path::within(paths[order[b] as int], paths[order[a] as int]),
    decreases order.len(),
{
    let init = order.drop_last();
    let before = outermost(paths, init);
    let kept = outermost(paths, order);
    let x = order.last();
    lemma_outermost_covers(paths, init);
    let k = choose|k: int| 0 <= k < kept.len() && kept[k] == order[b];
    assert(order[a] == init[a]);
    if b < init.len() {
        assert(order[b] == init[b]);
        assert(order[b] != x);
        assert(before[k] == init[b]);
        assert(before.contains(init[b]));
        lemma_outermost_fresh(paths, init, a, b);
    } else {
        if k < before.len() {
            assert(init.contains(before[k]));
            let m = choose|m: int| 0 <= m < init.len() && init[m] == before[k];
            assert(order[m] == order[b]);
        }
        assert(!covered(paths, before, paths[x as int]));
        if path::within(paths[x as int], paths[order[a] as int]) {
            let m = choose|m: int|
                0 <= m < before.len() && path::within(
                    paths[init[a] as int],
                    paths[#[trigger] before[m] as int],
                );
            lemma_within_transitive(
                paths[x as int],
                paths[init[a] as int],
                paths[before[m] as int],
            );
            assert(covered(paths, before, paths[x as int]));
        }
    }
}

/// Whether `q` is the first of `paths` to name its place.
pub open spec fn first_to_name(paths: Seq<Seq<char>>, q: Seq<char>) -> bool {
    exists|m: int|
        0 <= m < paths.len() && #[trigger] paths[m] == q && forall|k: int|
            0 <= k < m ==> path::components(#[trigger] paths[k]) != path::components(q)
}

/// Whether `p` is one of `roots` or lies below one.
pub open spec fn lies_under(p: Seq<char>, roots: Seq<Seq<char>>) -> bool {
    exists|i: int| 0 <= i < roots.len() && path::within(p, #[trigger] roots[i])
}

/// Whether `after` holds, in order, the outermost of `before`, each place once.
pub open spec fn deduped(before: Seq<Seq<char>>, after: Seq<Seq<char>>) -> bool {
    &&& forall|i: int| 0 <= i < after.len() ==> first_to_name(before, #[trigger] after[i])
    &&& forall|i: int, j: int|
        0 <= i < j < after.len() ==> lexical::path_no_later(
            #[trigger] after[i],
            #[trigger] after[j],
        )
    &&& forall|i: int, j: int|
        0 <= i < after.len() && 0 <= j < after.len() && i != j ==> !path::within(
            #[trigger] after[i],
            #[trigger] after[j],
        )
    &&& forall|m: int| 0 <= m < before.len() ==> #[trigger] lies_under(before[m], after)
}

/// Drops roots that are nested inside another root, so a subtree is not walked twice, and repeated
/// ones; sorts the rest component by component.
///
/// A deliberate override for a subdirectory is still expressible through `Config::profile_for`,
/// which prefers the longest prefix.
pub fn dedupe_nested(roots: &mut Vec<String>)
    ensures
        deduped(text::views(old(roots)@), text::views(final(roots)@)),
{
    let o = ByPath::new(roots);
    let n: usize = roots.len();
    let order = sorted_positions(&o, n);
    let kept = keep_outermost(roots, &order);
    let ghost before = text::views(roots@);
    let mut out: Vec<String> = Vec::new();
    let mut i: usize = 0;
    while i < kept.len()
        invariant
            before == text::views(roots@),
            forall|i: int| 0 <= i < kept@.len() ==> (#[trigger] kept@[i]) < roots@.len(),
            i <= kept@.len(),
            out@.len() == i,
            forall|k: int|
                0 <= k < i ==> text::views(out@)[k] == before[#[trigger] kept@[k] as int],
        decreases kept@.len() - i,
    {
        let s = roots[kept[i]].as_str().to_owned();
        proof {
            text::lemma_views_push(out@, s);
            assert(before[kept@[i as int] as int] == s@);
        }
        out.push(s);
        i += 1;
    }
    proof {
        let after = text::views(out@);
        assert(after.len() == kept@.len());
        lemma_outermost_covers(before, order@);
        lemma_outermost_order(before, order@, order::by_order(&o));
        lexical::lemma_orders();
        let le = lexical::lists_order();
        let rel = order::by_order(&o);
        assert(sorted_by(kept@, rel));
        assert forall|i: int, j: int| 0 <= i < j < after.len() implies {
            &&& lexical::path_no_later(after[i], after[j])
            &&& !path::within(after[i], after[j])
            &&& !path::within(after[j], after[i])
        } by {
            let a = kept@[i];
            let b = kept@[j];
            assert(rel(a, b));
            assert(o.before(a, b));
            assert(o.key(a) == lexical::path_key(after[i]));
            assert(o.key(b) == lexical::path_key(after[j]));
            assert(le(o.key(a), o.key(a)));
            assert(!path::within(after[j], after[i]));
            if path::within(after[i], after[j]) {
                lexical::lemma_container_first(after[i], after[j]);
                assert(le(o.key(b), o.key(a)));
                assert(le(o.key(a), o.key(b)));
                assert(o.key(a) == o.key(b));
                lexical::lemma_path_key(after[i], after[j]);
                assert(path::within(after[j], after[i]));
            }
        }
        assert forall|i: int| 0 <= i < after.len() implies first_to_name(
            before,
            #[trigger] after[i],
        ) by {
            let m = kept@[i];
            assert(before[m as int] == after[i]);
            assert(order@.contains(m));
            let b = choose|b: int| 0 <= b < order@.len() && order@[b] == m;
            assert forall|k: int| 0 <= k < m implies path::components(#[trigger] before[k])
                != path::components(after[i]) by {
                if path::components(before[k]) == path::components(after[i]) {
                    lexical::lemma_path_key(before[k], after[i]);
                    let kk = k as usize;
                    assert(order@.contains(kk));
                    let a = choose|a: int| 0 <= a < order@.len() && order@[a] == kk;
                    assert(o.key(kk) == o.key(m));
                    if b < a {
                        assert(rel(order@[b], order@[a]));
                        assert(o.before(m, kk));
                    }
                    assert(a < b);
                    assert(kept@.contains(order@[b]));
                    lemma_within_itself(before[m as int]);
                    assert(path::within(before[m as int], before[k]));
                    lemma_outermost_fresh(before, order@, a, b);
                }
            }
        }
        assert forall|m: int| 0 <= m < before.len() implies #[trigger] lies_under(
            before[m],
            after,
        ) by {
            let mm = m as usize;
            assert(order@.contains(mm));
            let a = choose|a: int| 0 <= a < order@.len() && order@[a] == mm;
            assert(covered(before, kept@, before[order@[a] as int]));
            let i = choose|i: int|
                0 <= i < kept@.len() && path::within(
                    before[m],
                    before[#[trigger] kept@[i] as int],
                );
            assert(path::within(before[m], after[i]));
        }
    }
    *roots = out;
}

// ------------------------------------------------------------------ laws

/// Positions that only rise, and of which none is left out, count up from the first.
proof fn lemma_rising_positions(at: Seq<int>, n: int, i: int)
    requires
        forall|k: int| 0 <= k < at.len() ==> 0 <= (#[trigger] at[k]) < n,
        forall|k: int, l: int| 0 <= k < l < at.len() ==> (#[trigger] at[k]) < (#[trigger] at[l]),
        forall|m: int| 0 <= m < n ==> #[trigger] at.contains(m),
        0 <= i < n,
    ensures
        i < at.len(),
        at[i] == i,
    decreases i,
{
    assert(at.contains(i));
    let j = choose|j: int| 0 <= j < at.len() && at[j] == i;
    if j < i {
        lemma_rising_positions(at, n, j);
    } else if i < j {
        if i > 0 {
            lemma_rising_positions(at, n, i - 1);
        }
        assert(at[i] < at[j]);
        assert(at[i] < i);
        let m = at[i];
        lemma_rising_positions(at, n, m);
    }
}

/// What is picked at rising positions, with none left out, is the whole.
proof fn lemma_rising_picks(from: Seq<Seq<char>>, at: Seq<int>, picked: Seq<Seq<char>>)
    requires
        at.len() == picked.len(),
        forall|k: int|
            0 <= k < at.len() ==> 0 <= (#[trigger] at[k]) < from.len() && from[at[k]] == picked[k],
        forall|k: int, l: int| 0 <= k < l < at.len() ==> (#[trigger] at[k]) < (#[trigger] at[l]),
        forall|m: int| 0 <= m < from.len() ==> #[trigger] at.contains(m),
    ensures
        picked == from,
{
    let n = from.len() as int;
    assert forall|i: int| 0 <= i < n implies i < at.len() && #[trigger] picked[i] == from[i] by {
        lemma_rising_positions(at, n, i);
    }
    if n > 0 {
        lemma_rising_positions(at, n, n - 1);
    }
    if picked.len() > n {
        assert(0 <= at[n] < n);
        assert(at[n - 1] < at[n]);
    }
    assert(picked =~= from);
}

/// Where `q` stands in `paths`.
spec fn place_in(paths: Seq<Seq<char>>, q: Seq<char>) -> int {
    choose|m: int| 0 <= m < paths.len() && paths[m] == q
}

/// What is left was there before.
proof fn lemma_place_in(before: Seq<Seq<char>>, after: Seq<Seq<char>>, i: int)
    requires
        deduped(before, after),
        0 <= i < after.len(),
    ensures
        0 <= place_in(before, after[i]) < before.len(),
        before[place_in(before, after[i])] == after[i],
{
    assert(first_to_name(before, after[i]));
    let m = choose|m: int|
        0 <= m < before.len() && #[trigger] before[m] == after[i] && forall|k: int|
            0 <= k < m ==> path::components(#[trigger] before[k]) != path::components(after[i]);
    assert(0 <= m < before.len() && before[m] == after[i]);
}

/// What one pass over the roots leaves, another leaves as it is.
pub proof fn dropping_nested_roots_again_changes_nothing(
    roots: Seq<Seq<char>>,
    once: Seq<Seq<char>>,
    twice: Seq<Seq<char>>,
)
    requires
        deduped(roots, once),
        deduped(once, twice),
    ensures
        twice == once,
{
    let at = Seq::new(twice.len(), |i: int| place_in(once, twice[i]));
    assert forall|i: int| 0 <= i < at.len() implies 0 <= (#[trigger] at[i]) < once.len()
        && once[at[i]] == twice[i] by {
        lemma_place_in(once, twice, i);
    }
    assert forall|i: int, j: int| 0 <= i < j < at.len() implies (#[trigger] at[i]) < (
    #[trigger] at[j]) by {
        lemma_picks_rise(roots, once, twice, i, j);
    }
    assert forall|m: int| 0 <= m < once.len() implies #[trigger] at.contains(m) by {
        lemma_none_left_out(roots, once, twice, m);
        let i = choose|i: int| 0 <= i < twice.len() && place_in(once, #[trigger] twice[i]) == m;
        assert(at[i] == m);
    }
    lemma_rising_picks(once, at, twice);
}

/// What is left keeps its order.
proof fn lemma_picks_rise(
    roots: Seq<Seq<char>>,
    once: Seq<Seq<char>>,
    twice: Seq<Seq<char>>,
    i: int,
    j: int,
)
    requires
        deduped(roots, once),
        deduped(once, twice),
        0 <= i < j < twice.len(),
    ensures
        place_in(once, twice[i]) < place_in(once, twice[j]),
{
    let a = place_in(once, twice[i]);
    let b = place_in(once, twice[j]);
    lemma_place_in(once, twice, i);
    lemma_place_in(once, twice, j);
    assert(!path::within(twice[i], twice[j]));
    lemma_within_itself(twice[i]);
    if b < a {
        assert(lexical::path_no_later(once[b], once[a]));
        assert(lexical::path_no_later(twice[i], twice[j]));
        lexical::lemma_neither_later(twice[i], twice[j]);
    }
}

/// Nothing that one pass left is dropped by another.
proof fn lemma_none_left_out(
    roots: Seq<Seq<char>>,
    once: Seq<Seq<char>>,
    twice: Seq<Seq<char>>,
    m: int,
)
    requires
        deduped(roots, once),
        deduped(once, twice),
        0 <= m < once.len(),
    ensures
        exists|i: int| 0 <= i < twice.len() && place_in(once, #[trigger] twice[i]) == m,
{
    let q = once[m];
    assert(lies_under(q, twice));
    let i = choose|i: int| 0 <= i < twice.len() && path::within(q, #[trigger] twice[i]);
    lemma_place_in(once, twice, i);
    let k = place_in(once, twice[i]);
    assert(path::within(once[m], once[k]));
    assert(k == m);
}

/// The built-in patterns among the globs.
proof fn lemma_builtin_globs(n: nat, unignore: Seq<Seq<char>>, g: Seq<char>)
    requires
        n <= BUILTIN_IGNORES@.len(),
    ensures
        builtin_globs(n, unignore).contains(g) <==> exists|i: int|
            0 <= i < n && g == seq!['!'] + (#[trigger] BUILTIN_IGNORES@[i])@ && !unignore.contains(
                BUILTIN_IGNORES@[i]@,
            ),
    decreases n,
{
    if n > 0 {
        let before = builtin_globs((n - 1) as nat, unignore);
        let all = builtin_globs(n, unignore);
        let pat = BUILTIN_IGNORES@[n - 1]@;
        lemma_builtin_globs((n - 1) as nat, unignore, g);
        if before.contains(g) {
            let k = choose|k: int| 0 <= k < before.len() && before[k] == g;
            assert(all[k] == g);
        }
        if !unignore.contains(pat) {
            assert(all[before.len() as int] == seq!['!'] + pat);
        }
        if all.contains(g) {
            let k = choose|k: int| 0 <= k < all.len() && all[k] == g;
            if k < before.len() {
                assert(before[k] == g);
            } else {
                assert(g == seq!['!'] + BUILTIN_IGNORES@[n - 1]@);
            }
        }
    }
}

/// Every built-in pattern is applied unless the user switched it off.
pub proof fn builtin_patterns_apply(unignore: Seq<Seq<char>>, extra: Seq<Seq<char>>, i: int)
    requires
        0 <= i < BUILTIN_IGNORES@.len(),
        !unignore.contains(BUILTIN_IGNORES@[i]@),
    ensures
        globs(unignore, extra).contains(seq!['!'] + BUILTIN_IGNORES@[i]@),
{
    let g = seq!['!'] + BUILTIN_IGNORES@[i]@;
    let head = builtin_globs(BUILTIN_IGNORES@.len(), unignore);
    lemma_builtin_globs(BUILTIN_IGNORES@.len(), unignore, g);
    let k = choose|k: int| 0 <= k < head.len() && head[k] == g;
    assert(globs(unignore, extra)[k] == g);
}

/// Every pattern of the user's own is applied.
pub proof fn extra_patterns_apply(unignore: Seq<Seq<char>>, extra: Seq<Seq<char>>, i: int)
    requires
        0 <= i < extra.len(),
    ensures
        globs(unignore, extra).contains(seq!['!'] + extra[i]),
{
    let head = builtin_globs(BUILTIN_IGNORES@.len(), unignore);
    assert(globs(unignore, extra)[head.len() + i] == seq!['!'] + extra[i]);
}

/// A built-in pattern that the user switched off is not applied, unless they also added it.
pub proof fn unignored_patterns_do_not_apply(
    unignore: Seq<Seq<char>>,
    extra: Seq<Seq<char>>,
    pat: Seq<char>,
)
    requires
        unignore.contains(pat),
        !extra.contains(pat),
    ensures
        !globs(unignore, extra).contains(seq!['!'] + pat),
{
    let g = seq!['!'] + pat;
    let head = builtin_globs(BUILTIN_IGNORES@.len(), unignore);
    lemma_builtin_globs(BUILTIN_IGNORES@.len(), unignore, g);
    if globs(unignore, extra).contains(g) {
        let k = choose|k: int|
            0 <= k < globs(unignore, extra).len() && globs(unignore, extra)[k] == g;
        if k < head.len() {
            assert(head[k] == g);
            let i = choose|i: int|
                0 <= i < BUILTIN_IGNORES@.len() && g == seq!['!'] + (
                #[trigger] BUILTIN_IGNORES@[i])@ && !unignore.contains(BUILTIN_IGNORES@[i]@);
            assert(pat =~= g.skip(1));
            assert(BUILTIN_IGNORES@[i]@ =~= g.skip(1));
        } else {
            let e = extra[k - head.len()];
            assert(seq!['!'] + e == g);
            assert(pat =~= g.skip(1));
            assert(e =~= g.skip(1));
            assert(extra.contains(e));
        }
    }
}

// ------------------------------------------------------------------ more laws

/// What is never indexed unless the user asks for it: the directories of tools, build products,
/// archives, images, bookkeeping and fonts that have these names.
pub open spec fn never_indexed() -> Seq<Seq<char>> {
    seq![
        ".git/"@, ".hg/"@, ".svn/"@, ".bzr/"@, ".jj/"@, "node_modules/"@, "__pycache__/"@,
        ".mypy_cache/"@, ".pytest_cache/"@, ".ruff_cache/"@, ".tox/"@, ".venv/"@, "venv/"@,
        "site-packages/"@, "target/debug/"@, "target/release/"@, ".gradle/"@, ".m2/"@,
        ".cargo/registry/"@, ".rustup/"@, ".npm/"@, ".pnpm-store/"@, ".yarn/"@, ".next/"@,
        ".nuxt/"@, ".svelte-kit/"@, ".terraform/"@, "vendor/"@, "third_party/"@, ".cache/"@,
        ".local/share/Trash/"@, ".thumbnails/"@, ".Trash-*/"@, "*.pyc"@, "*.pyo"@, "*.o"@, "*.a"@,
        "*.so"@, "*.so.*"@, "*.ko"@, "*.obj"@, "*.lib"@, "*.dll"@, "*.dylib"@, "*.class"@,
        "*.jar"@, "*.war"@, "*.rlib"@, "*.rmeta"@, "*.d"@, "*.cmd"@, "*.gcda"@, "*.gcno"@,
        "*.tar"@, "*.tar.*"@, "*.tgz"@, "*.gz"@, "*.bz2"@, "*.xz"@, "*.zst"@, "*.7z"@, "*.rar"@,
        "*.deb"@, "*.rpm"@, "*.apk"@, "*.AppImage"@, "*.iso"@, "*.img"@, "*.qcow2"@, "*.vmdk"@,
        "*.dmg"@, "*.lock"@, "*.pack"@, "*.idx"@, "*.map"@, "*.min.js"@, "*.min.css"@, "*.mo"@,
        "*.pdb"@, "*.sqlite-wal"@, "*.sqlite-shm"@, "*.woff"@, "*.woff2"@, "*.ttf"@, "*.otf"@,
        "*.eot"@,
    ]
}

/// The built-in patterns are exactly those.
pub proof fn the_builtin_patterns_are_these()
    ensures
        BUILTIN_IGNORES@.len() == never_indexed().len(),
        forall|i: int|
            0 <= i < never_indexed().len() ==> (#[trigger] BUILTIN_IGNORES@[i])@
                == never_indexed()[i],
{
}

/// The extensions of source code.
pub open spec fn source_code() -> Seq<Seq<char>> {
    seq![
        "c"@, "h"@, "cc"@, "cpp"@, "cxx"@, "hpp"@, "hh"@, "py"@, "rs"@, "go"@, "js"@, "mjs"@,
        "cjs"@, "ts"@, "tsx"@, "jsx"@, "java"@, "kt"@, "kts"@, "scala"@, "swift"@, "m"@, "mm"@,
        "cs"@, "rb"@, "php"@, "pl"@, "pm"@, "lua"@, "sh"@, "bash"@, "zsh"@, "fish"@, "sql"@, "s"@,
        "asm"@, "dts"@, "dtsi"@, "vhd"@, "v"@, "sv"@, "ex"@, "exs"@, "erl"@, "hs"@, "ml"@, "clj"@,
        "jl"@, "r"@, "f90"@, "for"@, "pas"@, "zig"@, "nim"@, "dart"@,
    ]
}

/// A file is source code exactly where its extension, in any ASCII case, is one of those.
pub proof fn source_code_is_told_by_its_extension(p: Seq<char>)
    ensures
        source_path(p) <==> (path::extension_of(p) is Some && source_code().contains(
            chars::ascii_lower(path::extension_of(p)->0),
        )),
{
    assert(SOURCE_EXTS@.len() == source_code().len());
    assert forall|i: int| 0 <= i < source_code().len() implies (#[trigger] SOURCE_EXTS@[i])@
        == source_code()[i] by {}
    if let Some(e) = path::extension_of(p) {
        let l = chars::ascii_lower(e);
        if lists(SOURCE_EXTS@, l) {
            let i = choose|i: int| 0 <= i < SOURCE_EXTS@.len() && #[trigger] SOURCE_EXTS@[i]@ == l;
            assert(source_code()[i] == l);
        }
        if source_code().contains(l) {
            let i = choose|i: int| 0 <= i < source_code().len() && source_code()[i] == l;
            assert(SOURCE_EXTS@[i]@ == l);
        }
    }
}

/// A tree is taken for code exactly where it was too large to look through, has more than twenty
/// thousand files, or more than six in ten of them are source code.
pub proof fn large_trees_and_source_trees_are_code(p: Probe)
    ensures
        p.is_code() <==> p.truncated || p.files > 20_000 || 10 * p.source_files > 6 * p.files,
        PROBE_CAP == 60_000,
{
}

/// A number in range stays; one beyond becomes the nearest end of the range.
pub proof fn numbers_out_of_range_become_the_nearest(n: int)
    ensures
        -0x8000_0000_0000_0000 <= n <= 0x7fff_ffff_ffff_ffff ==> saturated(n) == n,
        n > 0x7fff_ffff_ffff_ffff ==> saturated(n) == 0x7fff_ffff_ffff_ffff,
        n < -0x8000_0000_0000_0000 ==> saturated(n) == -0x8000_0000_0000_0000,
{
}

/// The patterns of a walk exclude, each behind an exclamation mark: first the built-in ones in
/// their order, without those switched off, then the user's own.
pub proof fn patterns_exclude_in_order(unignore: Seq<Seq<char>>, extra: Seq<Seq<char>>)
    ensures
        globs(unignore, extra) == never_indexed().filter(
            |p: Seq<char>| !unignore.contains(p),
        ).map_values(|p: Seq<char>| seq!['!'] + p) + extra.map_values(
            |p: Seq<char>| seq!['!'] + p,
        ),
{
    let all = never_indexed();
    the_builtin_patterns_are_these();
    lemma_globs_in_order(all.len(), unignore);
    assert(all.take(all.len() as int) =~= all);
}

proof fn lemma_globs_in_order(n: nat, unignore: Seq<Seq<char>>)
    requires
        n <= never_indexed().len(),
    ensures
        builtin_globs(n, unignore) == never_indexed().take(n as int).filter(
            |p: Seq<char>| !unignore.contains(p),
        ).map_values(|p: Seq<char>| seq!['!'] + p),
    decreases n,
{
    reveal(Seq::filter);
    the_builtin_patterns_are_these();
    let p = |p: Seq<char>| !unignore.contains(p);
    let f = |p: Seq<char>| seq!['!'] + p;
    let all = never_indexed();
    if n > 0 {
        let m = (n - 1) as nat;
        lemma_globs_in_order(m, unignore);
        assert(all.take(n as int).drop_last() =~= all.take(m as int));
        let pat = all[m as int];
        assert(BUILTIN_IGNORES@[m as int]@ == pat);
        let rest = all.take(m as int).filter(p);
        if p(pat) {
            assert(rest.push(pat).map_values(f) =~= rest.map_values(f).push(f(pat)));
        }
    } else {
        assert(all.take(0).filter(p).map_values(f) =~= Seq::<Seq<char>>::empty());
    }
}

/// A limit in megabytes is that many times 1048576 bytes, and none where that is more than can be
/// counted.
pub proof fn a_megabyte_is_two_to_the_twentieth(mb: u64, r: Option<u64>)
    requires
        call_ensures(size_limit, (mb,), r),
    ensures
        r matches Some(n) ==> n == mb * 1_048_576,
        r is None <==> mb >= 17_592_186_044_416,
{
}

/// A tree of code is suggested to be indexed as code, and any other by its content.
pub proof fn code_is_suggested_for_code(p: Probe, r: Profile)
    requires
        call_ensures(Probe::suggest, (&p,), r),
    ensures
        p.is_code() <==> r == Profile::Code,
        !p.is_code() <==> r == Profile::Content,
{
}

} // verus!
