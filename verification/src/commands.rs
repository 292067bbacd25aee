//! What the subcommands decide and say.
use crate::chars;
use crate::cli::IndexArgs;
use crate::config::{Config, Profile, Refresh, Root};
use crate::embed;
use crate::index::{Due, ScanOptions, ScanStats};
use crate::path;
use crate::text;
use crate::walk::Probe;
use vstd::prelude::*;

verus! {

// ------------------------------------------------------------------ small text

/// A text shortened from the left to `max` characters, keeping the informative tail.
pub open spec fn elided(s: Seq<char>, max: int) -> Seq<char> {
    if s.len() <= max {
        s
    } else {
        "..."@ + s.skip(s.len() - (max - 3))
    }
}

/// Shortens a long path from the left, keeping the informative tail.
pub fn elide(s: &str, max: usize) -> (r: String)
    requires
        s@.len() > max ==> max >= 3,
    ensures
        r@ == elided(s@, max as int),
{
    let cs = text::chars_of(s);
    let n: usize = cs.len();
    if n <= max {
        return s.to_owned();
    }
    let tail = text::from_chars(&cs[n - (max - 3)..n]);
    let mut out = "...".to_owned();
    out.append(tail.as_str());
    proof {
        assert(tail@ =~= s@.skip(s@.len() - (max - 3)));
    }
    out
}

/// A shortened text respects the limit and ends as the whole text does.
pub proof fn an_elided_text_fits_and_keeps_its_tail(s: Seq<char>, max: int)
    requires
        max >= 3,
    ensures
        elided(s, max).len() <= max,
        s.len() > max ==> elided(s, max).len() == max && chars::finishes_with(
            elided(s, max),
            s.skip(s.len() - (max - 3)),
        ),
{
    reveal_strlit("...");
    if s.len() > max {
        let t = s.skip(s.len() - (max - 3));
        assert(elided(s, max).skip(elided(s, max).len() - t.len()) =~= t);
    }
}

/// Seconds since `ts`, clamped at zero so a clock that moved backwards reads as "just now" rather
/// than as a huge negative age.
pub fn age_secs(ts: i64, now: i64) -> (r: i64)
    requires
        now - ts <= i64::MAX,
    ensures
        r == if now > ts {
            now - ts
        } else {
            0
        },
{
    if now > ts {
        now - ts
    } else {
        0
    }
}

/// Whether an answer to a yes-or-no question accepts.
pub open spec fn accepting(line: Seq<char>) -> bool {
    let t = chars::trimmed(line);
    t == "y"@ || t == "Y"@ || t == "yes"@ || t == "Yes"@
}

/// Whether an answer to a yes-or-no question accepts.
pub fn accepts(line: &str) -> (r: bool)
    ensures
        r == accepting(line@),
{
    let t = chars::trim(line);
    text::same(t.as_str(), "y") || text::same(t.as_str(), "Y") || text::same(t.as_str(), "yes")
        || text::same(t.as_str(), "Yes")
}

// ------------------------------------------------------------------ init

/// Why `wom init` refuses to start, if it does: it does not overwrite a configuration unasked.
pub fn init_refusal(config_file: &str, present: bool, force: bool) -> (r: Option<String>)
    ensures
        match r {
            Some(m) => present && !force && m@ == "config already exists at "@ + config_file@
                + ". Pass --force to overwrite it, or edit it directly."@,
            None => !present || force,
        },
{
    if present && !force {
        let mut m = "config already exists at ".to_owned();
        m.append(config_file);
        m.append(". Pass --force to overwrite it, or edit it directly.");
        Some(m)
    } else {
        None
    }
}

/// Conventional locations of code and notes below the home directory.
pub const HOME_DIRS: [&'static str; 6] = ["projects", "Projects", "src", "code", "Notes", "notes"];

/// The directories that may be proposed where none is named: those of the desktop, then the
/// conventional ones below the home directory. Without a home directory there are none.
pub open spec fn candidate_dirs(desktop: Seq<Seq<char>>, home: Option<String>) -> Seq<Seq<char>> {
    match home {
        Some(h) => desktop + Seq::new(
            HOME_DIRS@.len(),
            |i: int| path::joined(h@, HOME_DIRS@[i]@),
        ),
        None => seq![],
    }
}

/// The directories that may be proposed where none is named. The caller drops those that do not
/// exist.
pub fn default_candidate_roots(desktop: Vec<String>, home: &Option<String>) -> (r: Vec<String>)
    ensures
        text::views(r@) == candidate_dirs(text::views(desktop@), *home),
{
    let mut out = desktop;
    match home {
        Some(h) => {
            let names = HOME_DIRS;
            let ghost before = text::views(desktop@);
            let ghost more = Seq::new(names@.len(), |i: int| path::joined(h@, names@[i]@));
            let mut i: usize = 0;
            proof {
                assert(text::views(out@) =~= before + more.take(0));
            }
            while i < names.len()
                invariant
                    more == Seq::new(names@.len(), |i: int| path::joined(h@, names@[i]@)),
                    i <= names@.len(),
                    text::views(out@) == before + more.take(i as int),
                decreases names@.len() - i,
            {
                let p = path::join(h.as_str(), names[i]);
                proof {
                    text::lemma_views_push(out@, p);
                    assert((before + more.take(i as int)).push(p@) =~= before + more.take(i + 1));
                }
                out.push(p);
                i += 1;
            }
            proof {
                assert(more.take(more.len() as int) =~= more);
                assert(text::views(out@) =~= candidate_dirs(before, *home));
            }
            out
        },
        None => {
            let none: Vec<String> = Vec::new();
            proof {
                assert(text::views(none@) =~= Seq::<Seq<char>>::empty());
            }
            none
        },
    }
}

/// The profile that was forced on all roots, if one was.
pub fn forced_profile(name: &Option<String>) -> (r: Result<Option<Profile>, String>)
    ensures
        match name {
            None => r matches Ok(p) && p is None,
            Some(s) => match r {
                Ok(p) => p is Some && p->0.name() == s@,
                Err(m) => m@ == "unknown profile `"@ + s@ + "`"@ && (forall|p: Profile|
                    #[trigger] p.name() != s@),
            },
        },
{
    match name {
        None => Ok(None),
        Some(s) => match Profile::from_str_opt(s.as_str()) {
            Some(p) => Ok(Some(p)),
            None => {
                let mut m = "unknown profile `".to_owned();
                m.append(s.as_str());
                m.append("`");
                Err(m)
            },
        },
    }
}

/// What `wom init` proposes.
#[derive(Debug, Clone)]
pub struct Proposal {
    /// The candidates that hold files, with their profiles.
    pub roots: Vec<Root>,
    /// What each of them holds, as it is shown.
    pub counts: Vec<String>,
    pub total_files: usize,
    /// Whether a total is only a floor.
    pub truncated: bool,
}

/// How many files a root holds, as it is shown: a floor carries a plus sign.
pub open spec fn count_text(p: Probe) -> Seq<char> {
    if p.truncated {
        text::decimal(p.files as nat).push('+')
    } else {
        text::decimal(p.files as nat)
    }
}

fn write_count(p: &Probe) -> (r: String)
    ensures
        r@ == count_text(*p),
{
    let mut s = text::dec(p.files as u64);
    if p.truncated {
        s.push('+');
    }
    s
}

/// The positions of the first `n` candidates that hold files.
pub open spec fn filled_roots(probes: Seq<Probe>) -> Seq<int>
    decreases probes.len(),
{
    if probes.len() == 0 {
        seq![]
    } else {
        let before = filled_roots(probes.drop_last());
        if probes.last().files == 0 {
            before
        } else {
            before.push(probes.len() - 1)
        }
    }
}

/// How many files the candidates hold together.
pub open spec fn files_in_all(probes: Seq<Probe>) -> int
    decreases probes.len(),
{
    if probes.len() == 0 {
        0
    } else {
        files_in_all(probes.drop_last()) + probes.last().files
    }
}

proof fn lemma_files_grow(probes: Seq<Probe>, n: int)
    requires
        0 <= n <= probes.len(),
    ensures
        files_in_all(probes.take(n)) <= files_in_all(probes),
    decreases probes.len(),
{
    if n == probes.len() {
        assert(probes.take(n) =~= probes);
    } else {
        lemma_files_grow(probes.drop_last(), n);
        assert(probes.drop_last().take(n) =~= probes.take(n));
    }
}

/// Whether some candidate that holds files was only looked at in part.
pub open spec fn any_truncated(probes: Seq<Probe>) -> bool {
    exists|i: int| 0 <= i < probes.len() && (#[trigger] probes[i]).files > 0 && probes[i].truncated
}

/// Whether `p` proposes the candidates that hold files.
pub open spec fn proposes(
    p: Proposal,
    candidates: Seq<String>,
    probes: Seq<Probe>,
    forced: Option<Profile>,
) -> bool {
    let kept = filled_roots(probes);
    &&& p.roots@.len() == kept.len()
    &&& p.counts@.len() == kept.len()
    &&& forall|k: int|
        0 <= k < kept.len() ==> {
            &&& (#[trigger] p.roots@[k]).path@ == candidates[kept[k]]@
            &&& p.roots@[k].profile == match forced {
                Some(f) => f,
                None => if probes[kept[k]].is_code() {
                    Profile::Code
                } else {
                    Profile::Content
                },
            }
            &&& p.counts@[k]@ == count_text(probes[kept[k]])
        }
    &&& p.total_files == files_in_all(probes)
    &&& p.truncated == any_truncated(probes)
}

/// Proposes roots from what a look at each candidate found. Empty ones are left out.
pub fn propose(candidates: &Vec<String>, probes: &Vec<Probe>, forced: Option<Profile>) -> (r: Result<
    Proposal,
    &'static str,
>)
    requires
        probes@.len() == candidates@.len(),
        files_in_all(probes@) <= usize::MAX,
    ensures
        match r {
            Ok(p) => filled_roots(probes@).len() > 0 && proposes(p, candidates@, probes@, forced),
            Err(m) => if candidates@.len() == 0 {
                m@ == "no directories to index. Name some with `wom init --add ~/Documents`."@
            } else {
                filled_roots(probes@).len() == 0 && m@
                    == "every candidate directory came back empty after ignore rules"@
            },
        },
{
    if candidates.len() == 0 {
        proof {
            assert(filled_roots(probes@).len() == 0);
        }
        return Err("no directories to index. Name some with `wom init --add ~/Documents`.");
    }
    let mut roots: Vec<Root> = Vec::new();
    let mut counts: Vec<String> = Vec::new();
    let mut total: usize = 0;
    let mut truncated = false;
    let mut i: usize = 0;
    while i < probes.len()
        invariant
            probes@.len() == candidates@.len(),
            files_in_all(probes@) <= usize::MAX,
            i <= probes@.len(),
            roots@.len() == filled_roots(probes@.take(i as int)).len(),
            counts@.len() == roots@.len(),
            total == files_in_all(probes@.take(i as int)),
            truncated == any_truncated(probes@.take(i as int)),
            forall|k: int|
                0 <= k < roots@.len() ==> {
                    let at = filled_roots(probes@.take(i as int))[k];
                    &&& 0 <= at < i
                    &&& (#[trigger] roots@[k]).path@ == candidates@[at]@
                    &&& roots@[k].profile == match forced {
                        Some(f) => f,
                        None => if probes@[at].is_code() {
                            Profile::Code
                        } else {
                            Profile::Content
                        },
                    }
                    &&& counts@[k]@ == count_text(probes@[at])
                },
        decreases probes@.len() - i,
    {
        let probe = &probes[i];
        let ghost seen = probes@.take(i as int);
        let ghost next = probes@.take(i + 1);
        proof {
            assert(next.drop_last() =~= seen);
            assert(next.last() == *probe);
            lemma_files_grow(probes@, i + 1);
            assert(any_truncated(next) == (any_truncated(seen) || (probe.files > 0
                && probe.truncated))) by {
                if any_truncated(seen) {
                    let k = choose|k: int|
                        0 <= k < seen.len() && (#[trigger] seen[k]).files > 0 && seen[k].truncated;
                    assert(next[k].files > 0 && next[k].truncated);
                }
                if probe.files > 0 && probe.truncated {
                    assert(next[i as int].files > 0 && next[i as int].truncated);
                }
                if any_truncated(next) {
                    let k = choose|k: int|
                        0 <= k < next.len() && (#[trigger] next[k]).files > 0 && next[k].truncated;
                    if k < i {
                        assert(seen[k].files > 0 && seen[k].truncated);
                    }
                }
            }
        }
        if probe.files > 0 {
            let profile = match forced {
                Some(f) => f,
                None => probe.suggest(),
            };
            total = total + probe.files;
            truncated = truncated || probe.truncated;
            roots.push(Root { path: candidates[i].as_str().to_owned(), profile });
            counts.push(write_count(probe));
            proof {
                let kept = filled_roots(seen);
                assert(filled_roots(next) == kept.push(i as int));
                assert forall|k: int| 0 <= k < roots@.len() implies {
                    let at = filled_roots(next)[k];
                    &&& 0 <= at < i + 1
                    &&& (#[trigger] roots@[k]).path@ == candidates@[at]@
                    &&& roots@[k].profile == match forced {
                        Some(f) => f,
                        None => if probes@[at].is_code() {
                            Profile::Code
                        } else {
                            Profile::Content
                        },
                    }
                    &&& counts@[k]@ == count_text(probes@[at])
                } by {
                    if k < kept.len() {
                        assert(filled_roots(next)[k] == kept[k]);
                    }
                }
            }
        }
        i += 1;
    }
    proof {
        assert(probes@.take(probes@.len() as int) =~= probes@);
    }
    if roots.len() == 0 {
        return Err("every candidate directory came back empty after ignore rules");
    }
    Ok(Proposal { roots, counts, total_files: total, truncated })
}

// ------------------------------------------------------------------ index

/// Whether `wom index` looks at the schedule at all: not where a scan was asked for in words.
pub open spec fn goes_by_schedule(args: IndexArgs) -> bool {
    !args.now && !args.force && !args.rebuild && !args.dry_run
}

/// Whether `wom index` looks at the schedule at all.
pub fn heeds_schedule(args: &IndexArgs) -> (r: bool)
    ensures
        r == goes_by_schedule(*args),
{
    !args.now && !args.force && !args.rebuild && !args.dry_run
}

/// Whether `wom index` has nothing to do: the schedule counts, and says that no scan is due.
pub fn is_up_to_date(args: &IndexArgs, due: Due) -> (r: bool)
    ensures
        r == (goes_by_schedule(*args) && due == Due::No),
{
    heeds_schedule(args) && due == Due::No
}

/// Whether `wom index` deletes the derived files first. A dry run deletes nothing.
pub fn discards_index(args: &IndexArgs) -> (r: bool)
    ensures
        r == (args.rebuild && !args.dry_run),
{
    args.rebuild && !args.dry_run
}

/// Whether what is found is held against an index: there is one, and it would not be discarded.
pub fn holds_against_index(args: &IndexArgs, exists: bool) -> (r: bool)
    ensures
        r == (exists && !args.rebuild),
{
    exists && !args.rebuild
}

/// The name of a schedule.
pub open spec fn refresh_name(r: Refresh) -> Seq<char> {
    match r {
        Refresh::EveryRun => "EveryRun"@,
        Refresh::Daily => "Daily"@,
        Refresh::Weekly => "Weekly"@,
        Refresh::Manual => "Manual"@,
    }
}

/// The name of a schedule.
pub fn name_of_refresh(r: Refresh) -> (s: &'static str)
    ensures
        s@ == refresh_name(r),
{
    match r {
        Refresh::EveryRun => "EveryRun",
        Refresh::Daily => "Daily",
        Refresh::Weekly => "Weekly",
        Refresh::Manual => "Manual",
    }
}

/// What is said when no scan is due; `ago` is how long ago the last one was.
pub open spec fn up_to_date_text(ago: Option<String>, refresh: Refresh) -> Seq<char> {
    "Index is up to date"@ + (match ago {
        Some(a) => " (scanned "@ + a@ + " ago)"@,
        None => Seq::<char>::empty(),
    }) + " per the `"@ + refresh_name(refresh) + "` schedule. Pass --now to scan anyway."@
}

/// What is said when no scan is due.
pub fn up_to_date(ago: &Option<String>, refresh: Refresh) -> (r: String)
    ensures
        r@ == up_to_date_text(*ago, refresh),
{
    let mut s = "Index is up to date".to_owned();
    match ago {
        Some(a) => {
            s.append(" (scanned ");
            s.append(a.as_str());
            s.append(" ago)");
        },
        None => {},
    }
    s.append(" per the `");
    s.append(name_of_refresh(refresh));
    s.append("` schedule. Pass --now to scan anyway.");
    proof {
        assert(s@ =~= up_to_date_text(*ago, refresh));
    }
    s
}

/// Why nothing can be scanned, if nothing can.
pub fn index_refusal(roots: &Vec<Root>) -> (r: Option<&'static str>)
    ensures
        match r {
            Some(m) => roots@.len() == 0 && m@
                == "no directories configured. Run `wom init` first."@,
            None => roots@.len() > 0,
        },
{
    if roots.len() == 0 {
        Some("no directories configured. Run `wom init` first.")
    } else {
        None
    }
}

/// What `wom index` asks of a scan. A dry run and a scan without vectors need no model.
pub fn scan_options(args: &IndexArgs, only_root: Option<String>) -> (r: ScanOptions)
    ensures
        r == (ScanOptions {
            force: args.force,
            dry_run: args.dry_run,
            only_root,
            embed: !args.dry_run && !args.no_embed,
            progress: true,
        }),
{
    ScanOptions {
        force: args.force,
        dry_run: args.dry_run,
        only_root,
        embed: !args.dry_run && !args.no_embed,
        progress: true,
    }
}

/// Whether a path names a configured root.
pub open spec fn is_configured(roots: Seq<Root>, p: Seq<char>) -> bool {
    exists|i: int| 0 <= i < roots.len() && #[trigger] path::same_place(roots[i].path@, p)
}

/// Why a scan cannot be limited to `p`, if it cannot.
pub fn root_refusal(roots: &Vec<Root>, p: &str) -> (r: Option<String>)
    ensures
        match r {
            Some(m) => !is_configured(roots@, p@) && m@ == p@
                + " is not a configured root. `wom status` lists them."@,
            None => is_configured(roots@, p@),
        },
{
    let mut i: usize = 0;
    while i < roots.len()
        invariant
            i <= roots@.len(),
            forall|k: int| 0 <= k < i ==> !#[trigger] path::same_place(roots@[k].path@, p@),
        decreases roots@.len() - i,
    {
        if path::same_path(roots[i].path.as_str(), p) {
            return None;
        }
        i += 1;
    }
    let mut m = p.to_owned();
    m.append(" is not a configured root. `wom status` lists them.");
    Some(m)
}

/// The counts of a scan in parentheses.
pub open spec fn counts_text(s: ScanStats) -> Seq<char> {
    text::decimal(s.added as nat) + " new, "@ + text::decimal(s.updated as nat) + " changed, "@
        + text::decimal(s.unchanged as nat) + " unchanged"@
}

fn write_counts(s: &ScanStats) -> (r: String)
    ensures
        r@ == counts_text(*s),
{
    let mut m = text::dec(s.added as u64);
    m.append(" new, ");
    m.append(text::dec(s.updated as u64).as_str());
    m.append(" changed, ");
    m.append(text::dec(s.unchanged as u64).as_str());
    m.append(" unchanged");
    m
}

/// What is said after a dry run.
pub fn dry_run_report(s: &ScanStats) -> (r: String)
    ensures
        r@ == "dry run: "@ + text::decimal(s.seen as nat) + " files would be indexed ("@
            + counts_text(*s) + ")"@,
{
    let mut m = "dry run: ".to_owned();
    m.append(text::dec(s.seen as u64).as_str());
    m.append(" files would be indexed (");
    m.append(write_counts(s).as_str());
    m.append(")");
    m
}

/// What is said after a scan, line by line; `took` is how long it took.
pub open spec fn scan_lines(s: ScanStats, took: Seq<char>) -> Seq<Seq<char>> {
    seq![
        "indexed "@ + text::decimal(s.seen as nat) + " files in "@ + took + " ("@ + counts_text(s)
            + ", "@ + text::decimal(s.embedded as nat) + " embedded)"@,
        text::decimal(s.dirs as nat) + " directories"@,
    ] + (if s.skipped > 0 {
        seq![
            text::decimal(s.skipped as nat)
                + " paths skipped as unreadable (permissions, or removed mid-scan)"@,
        ]
    } else {
        seq![]
    }) + (if s.deleted_files > 0 || s.deleted_dirs > 0 {
        seq![
            "removed "@ + text::decimal(s.deleted_files as nat) + " files and "@ + text::decimal(
                s.deleted_dirs as nat,
            ) + " directories that are gone from disk"@,
        ]
    } else {
        seq![]
    })
}

/// What is said after a scan. Unreadable paths are normal but should not be invisible.
pub fn scan_report(s: &ScanStats, took: &str) -> (r: Vec<String>)
    ensures
        text::views(r@) == scan_lines(*s, took@),
{
    let mut v: Vec<String> = Vec::new();
    let mut a = "indexed ".to_owned();
    a.append(text::dec(s.seen as u64).as_str());
    a.append(" files in ");
    a.append(took);
    a.append(" (");
    a.append(write_counts(s).as_str());
    a.append(", ");
    a.append(text::dec(s.embedded as u64).as_str());
    a.append(" embedded)");
    v.push(a);
    let mut b = text::dec(s.dirs as u64);
    b.append(" directories");
    v.push(b);
    if s.skipped > 0 {
        let mut c = text::dec(s.skipped as u64);
        c.append(" paths skipped as unreadable (permissions, or removed mid-scan)");
        v.push(c);
    }
    if s.deleted_files > 0 || s.deleted_dirs > 0 {
        let mut d = "removed ".to_owned();
        d.append(text::dec(s.deleted_files as u64).as_str());
        d.append(" files and ");
        d.append(text::dec(s.deleted_dirs as u64).as_str());
        d.append(" directories that are gone from disk");
        v.push(d);
    }
    proof {
        assert(text::views(v@) =~= scan_lines(*s, took@));
    }
    v
}

// ------------------------------------------------------------------ refreshing on a query

/// What a query does about a stale index.
#[derive(Debug, Clone, Copy, PartialEq, Eq, Structural)]
pub enum RefreshStep {
    /// Answer from what is there.
    Nothing,
    /// Say that nothing is indexed yet. A silent background scan would be no help.
    SayEmpty,
    /// Say that a refresh is already running.
    SayRunning,
    /// Start a scan behind the query.
    Start,
}

/// Decides what a query does about a stale index.
pub fn refresh_step(due: Due, running: bool) -> (r: RefreshStep)
    ensures
        r == match due {
            Due::No => RefreshStep::Nothing,
            Due::Never => RefreshStep::SayEmpty,
            Due::Elapsed => if running {
                RefreshStep::SayRunning
            } else {
                RefreshStep::Start
            },
        },
{
    match due {
        Due::No => RefreshStep::Nothing,
        Due::Never => RefreshStep::SayEmpty,
        Due::Elapsed => if running {
            RefreshStep::SayRunning
        } else {
            RefreshStep::Start
        },
    }
}

// ------------------------------------------------------------------ status

/// How many vectors a store holds, as it is shown; `rows` is `None` where it does not open.
pub open spec fn vector_count_text(present: bool, rows: Option<usize>) -> Seq<char> {
    if !present {
        "none"@
    } else {
        match rows {
            Some(n) => text::decimal(n as nat),
            None => "incompatible"@,
        }
    }
}

/// How many vectors a store holds, as it is shown.
pub fn vector_count(present: bool, rows: Option<usize>) -> (r: String)
    ensures
        r@ == vector_count_text(present, rows),
{
    if !present {
        return "none".to_owned();
    }
    match rows {
        Some(n) => text::dec(n as u64),
        None => "incompatible".to_owned(),
    }
}

/// The remedy for a gap in the vector index, if there is one.
pub fn vectors_remedy(present: bool, rows: Option<usize>) -> (r: Option<&'static str>)
    ensures
        match r {
            Some(s) => if !present {
                s@ == "(no vector index; run `wom index` to build it)"@
            } else {
                rows == Some(0usize) && s@
                    == "(empty - indexing was likely interrupted; run `wom index --now`)"@
            },
            None => present && rows != Some(0usize),
        },
{
    if !present {
        return Some("(no vector index; run `wom index` to build it)");
    }
    match rows {
        Some(n) => if n == 0 {
            Some("(empty - indexing was likely interrupted; run `wom index --now`)")
        } else {
            None
        },
        None => None,
    }
}

/// What is said where the index was built with another model than the configured one.
pub fn model_note(indexed: &str, configured: &str) -> (r: Option<String>)
    ensures
        match r {
            Some(m) => indexed@ != configured@ && indexed@ != "-"@ && m@ == "(config says "@
                + configured@ + "; run `wom index --rebuild` to switch)"@,
            None => indexed@ == configured@ || indexed@ == "-"@,
        },
{
    if text::same(indexed, configured) || text::same(indexed, "-") {
        return None;
    }
    let mut m = "(config says ".to_owned();
    m.append(configured);
    m.append("; run `wom index --rebuild` to switch)");
    Some(m)
}

/// How many files were read in which way.
pub struct Coverage {
    pub kind: String,
    pub files: i64,
}

/// The parts of the coverage line.
pub open spec fn coverage_parts(c: Seq<Coverage>) -> Seq<Seq<char>> {
    c.map_values(|x: Coverage| text::signed_decimal(x.files as int) + " "@ + x.kind@)
}

/// The coverage line.
pub fn coverage_line(c: &Vec<Coverage>) -> (r: String)
    ensures
        r@ == text::joined(coverage_parts(c@), ", "@),
{
    let mut parts: Vec<String> = Vec::new();
    let ghost all = coverage_parts(c@);
    let mut i: usize = 0;
    proof {
        assert(text::views(parts@) =~= all.take(0));
    }
    while i < c.len()
        invariant
            all == coverage_parts(c@),
            i <= c@.len(),
            text::views(parts@) == all.take(i as int),
        decreases c@.len() - i,
    {
        let mut s = text::dec_signed(c[i].files);
        s.append(" ");
        s.append(c[i].kind.as_str());
        proof {
            text::lemma_views_push(parts@, s);
            assert(all.take(i + 1) =~= all.take(i as int).push(s@));
        }
        parts.push(s);
        i += 1;
    }
    proof {
        assert(all.take(all.len() as int) =~= all);
    }
    text::join(&parts, ", ")
}

// ------------------------------------------------------------------ model

/// The mark before a model in the list: configured, or the one that built the current index.
pub fn model_marker(id: &str, configured: &str, indexed: &Option<String>) -> (r: &'static str)
    ensures
        r@ == if id@ == configured@ {
            "*"@
        } else if indexed is Some && indexed->0@ == id@ {
            "i"@
        } else {
            " "@
        },
{
    if text::same(id, configured) {
        return "*";
    }
    match indexed {
        Some(m) => if text::same(m.as_str(), id) {
            "i"
        } else {
            " "
        },
        None => " ",
    }
}

/// Switches the configured model; says what it was, or `None` where it is that model already.
pub fn switch_model(cfg: &mut Config, id: &str) -> (r: Result<Option<String>, String>)
    ensures
        match r {
            Ok(Some(before)) => {
                &&& embed::registered(id@) is Some
                &&& before@ == old(cfg).model@
                &&& before@ != id@
                &&& final(cfg).model@ == id@
            },
            Ok(None) => embed::registered(id@) is Some && old(cfg).model@ == id@ && *final(cfg) == *old(
                cfg,
            ),
            Err(m) => embed::registered(id@) is None && m@ == embed::unknown_model(id@) && *final(cfg)
                == *old(cfg),
        },
        *final(cfg) == (Config { model: final(cfg).model, ..*old(cfg) }),
{
    match embed::lookup(id) {
        Err(m) => Err(m),
        Ok(_) => {
            if text::same(cfg.model.as_str(), id) {
                return Ok(None);
            }
            let before = cfg.model.as_str().to_owned();
            cfg.model = id.to_owned();
            Ok(Some(before))
        },
    }
}

// ------------------------------------------------------------------ laws

/// What is cut away is the beginning, and three dots stand for it; what fits is left alone.
pub proof fn three_dots_stand_for_the_beginning(s: Seq<char>, max: int)
    requires
        max >= 3,
    ensures
        s.len() <= max ==> elided(s, max) == s,
        s.len() > max ==> elided(s, max).take(3) == seq!['.', '.', '.'] && elided(s, max).skip(3)
            == s.skip(s.len() - max + 3),
{
    reveal_strlit("...");
    if s.len() > max {
        assert(elided(s, max).take(3) =~= seq!['.', '.', '.']);
        assert(elided(s, max).skip(3) =~= s.skip(s.len() - max + 3));
    }
}

/// Only `y` and `yes` accept, with a small or a capital letter at the beginning; anything else,
/// nothing included, declines.
pub proof fn only_a_yes_accepts(line: Seq<char>)
    ensures
        accepting(line) <==> seq!["y"@, "Y"@, "yes"@, "Yes"@].contains(chars::trimmed(line)),
        chars::trimmed(line).len() == 0 ==> !accepting(line),
{
    reveal_strlit("y");
    reveal_strlit("Y");
    reveal_strlit("yes");
    reveal_strlit("Yes");
    let all = seq!["y"@, "Y"@, "yes"@, "Yes"@];
    let t = chars::trimmed(line);
    if accepting(line) {
        assert(all[0] == "y"@ && all[1] == "Y"@ && all[2] == "yes"@ && all[3] == "Yes"@);
    }
}

/// Below the home directory six directories are tried, after all of the desktop's.
pub proof fn the_usual_places_are_tried(desktop: Seq<Seq<char>>, home: String)
    ensures
        candidate_dirs(desktop, None).len() == 0,
        candidate_dirs(desktop, Some(home)) == desktop + seq![
            path::joined(home@, "projects"@),
            path::joined(home@, "Projects"@),
            path::joined(home@, "src"@),
            path::joined(home@, "code"@),
            path::joined(home@, "Notes"@),
            path::joined(home@, "notes"@),
        ],
{
    assert(candidate_dirs(desktop, Some(home)) =~= desktop + seq![
        path::joined(home@, "projects"@),
        path::joined(home@, "Projects"@),
        path::joined(home@, "src"@),
        path::joined(home@, "code"@),
        path::joined(home@, "Notes"@),
        path::joined(home@, "notes"@),
    ]);
}

/// Exactly the candidates that hold files are proposed, each once, in order.
pub proof fn every_candidate_with_files_is_proposed(probes: Seq<Probe>, i: int)
    ensures
        filled_roots(probes).contains(i) <==> 0 <= i < probes.len() && probes[i].files > 0,
        forall|a: int, b: int|
            0 <= a < b < filled_roots(probes).len() ==> filled_roots(probes)[a] < filled_roots(
                probes,
            )[b],
    decreases probes.len(),
{
    if probes.len() > 0 {
        let init = probes.drop_last();
        let before = filled_roots(init);
        let all = filled_roots(probes);
        let n = probes.len() - 1;
        every_candidate_with_files_is_proposed(init, i);
        assert forall|a: int| 0 <= a < before.len() implies 0 <= #[trigger] before[a] < n by {
            every_candidate_with_files_is_proposed(init, before[a]);
            assert(before.contains(before[a]));
        }
        if probes.last().files > 0 {
            assert(all[before.len() as int] == n);
            if before.contains(i) {
                let a = choose|a: int| 0 <= a < before.len() && before[a] == i;
                assert(all[a] == i);
            }
            if all.contains(i) && i != n {
                let a = choose|a: int| 0 <= a < all.len() && all[a] == i;
                assert(before[a] == i);
            }
        }
    }
}

/// The files of all candidates are counted together; a root that was looked at only in part is
/// shown with a plus sign.
pub proof fn all_files_are_counted(a: Seq<Probe>, b: Seq<Probe>, p: Probe)
    ensures
        files_in_all(seq![p]) == p.files,
        files_in_all(a + b) == files_in_all(a) + files_in_all(b),
        p.truncated ==> count_text(p) == text::decimal(p.files as nat) + seq!['+'],
        !p.truncated ==> count_text(p) == text::decimal(p.files as nat),
    decreases b.len(),
{
    assert(seq![p].drop_last() =~= seq![]);
    assert(files_in_all(Seq::<Probe>::empty()) == 0);
    reveal_with_fuel(files_in_all, 2);
    assert(text::decimal(p.files as nat).push('+') =~= text::decimal(p.files as nat) + seq!['+']);
    if b.len() == 0 {
        assert(a + b =~= a);
    } else {
        all_files_are_counted(a, b.drop_last(), p);
        assert((a + b).drop_last() =~= a + b.drop_last());
        assert((a + b).last() == b.last());
    }
}

/// A scan that was asked for in words is never put off, and a dry run discards nothing.
pub proof fn what_was_asked_for_is_done(args: IndexArgs, due: Due, idle: bool, discards: bool)
    requires
        call_ensures(is_up_to_date, (&args, due), idle),
        call_ensures(discards_index, (&args,), discards),
    ensures
        args.now || args.force || args.rebuild || args.dry_run ==> !idle,
        due != Due::No ==> !idle,
        !args.now && !args.force && !args.rebuild && !args.dry_run && due == Due::No ==> idle,
        args.dry_run ==> !discards,
        !args.dry_run ==> discards == args.rebuild,
{
}

/// A path is a configured root exactly where it names the place of one of them.
pub proof fn a_configured_root_is_found(roots: Seq<Root>, p: Seq<char>, i: int)
    requires
        0 <= i < roots.len(),
    ensures
        path::same_place(roots[i].path@, p) ==> is_configured(roots, p),
        !is_configured(Seq::<Root>::empty(), p),
{
}

/// What is said after a scan: unreadable paths and removed rows are mentioned exactly where there
/// are any.
pub proof fn nothing_skipped_goes_unsaid(s: ScanStats, took: Seq<char>)
    ensures
        scan_lines(s, took).len() == 2 + (if s.skipped > 0 {
            1int
        } else {
            0
        }) + (if s.deleted_files > 0 || s.deleted_dirs > 0 {
            1int
        } else {
            0
        }),
        scan_lines(s, took)[0] == "indexed "@ + text::decimal(s.seen as nat) + " files in "@ + took
            + " ("@ + text::decimal(s.added as nat) + " new, "@ + text::decimal(s.updated as nat)
            + " changed, "@ + text::decimal(s.unchanged as nat) + " unchanged"@ + ", "@
            + text::decimal(s.embedded as nat) + " embedded)"@,
        scan_lines(s, took)[1] == text::decimal(s.dirs as nat) + " directories"@,
        s.skipped > 0 ==> scan_lines(s, took)[2] == text::decimal(s.skipped as nat)
            + " paths skipped as unreadable (permissions, or removed mid-scan)"@,
        s.deleted_files > 0 || s.deleted_dirs > 0 ==> scan_lines(s, took).last() == "removed "@
            + text::decimal(s.deleted_files as nat) + " files and "@ + text::decimal(
            s.deleted_dirs as nat,
        ) + " directories that are gone from disk"@,
{
    assert(scan_lines(s, took)[0] =~= "indexed "@ + text::decimal(s.seen as nat) + " files in "@
        + took + " ("@ + text::decimal(s.added as nat) + " new, "@ + text::decimal(s.updated as nat)
        + " changed, "@ + text::decimal(s.unchanged as nat) + " unchanged"@ + ", "@
        + text::decimal(s.embedded as nat) + " embedded)"@);
}

/// Every way of reading is listed, with how many files were read so; and a store that is not there
/// or does not open is told from one that is empty.
pub proof fn every_way_of_reading_is_listed(c: Seq<Coverage>, i: int, rows: usize)
    requires
        0 <= i < c.len(),
    ensures
        coverage_parts(c).len() == c.len(),
        coverage_parts(c)[i] == text::signed_decimal(c[i].files as int) + " "@ + c[i].kind@,
        vector_count_text(false, None) == "none"@,
        vector_count_text(true, None) == "incompatible"@,
        vector_count_text(true, Some(rows)) == text::decimal(rows as nat),
{
}

/// A scan in the background is started only where one is due and none is running.
pub proof fn a_due_scan_is_started_once(due: Due, running: bool, r: RefreshStep)
    requires
        call_ensures(refresh_step, (due, running), r),
    ensures
        r == RefreshStep::Start <==> due == Due::Elapsed && !running,
        r == RefreshStep::SayRunning <==> due == Due::Elapsed && running,
        r == RefreshStep::SayEmpty <==> due == Due::Never,
        r == RefreshStep::Nothing <==> due == Due::No,
{
}

/// What was asked for on the command line is what the scan does; a dry run embeds nothing.
pub proof fn a_scan_does_as_it_was_told(
    args: IndexArgs,
    only_root: Option<String>,
    r: ScanOptions,
    exists: bool,
    held: bool,
)
    requires
        call_ensures(scan_options, (&args, only_root), r),
        call_ensures(holds_against_index, (&args, exists), held),
    ensures
        r.force == args.force,
        r.dry_run == args.dry_run,
        r.only_root == only_root,
        r.embed <==> !args.dry_run && !args.no_embed,
        held <==> exists && !args.rebuild,
{
}

/// An age is never negative, and counts the seconds since.
pub proof fn an_age_is_never_negative(ts: i64, now: i64, r: i64)
    requires
        call_ensures(age_secs, (ts, now), r),
    ensures
        r >= 0,
        now >= ts ==> r == now - ts,
        now < ts ==> r == 0,
{
}

/// A total is only a floor where a root that holds files was looked at in part, wherever it stands.
pub proof fn a_root_seen_in_part_makes_a_floor(a: Seq<Probe>, b: Seq<Probe>, p: Probe)
    ensures
        any_truncated(seq![p]) <==> p.files > 0 && p.truncated,
        any_truncated(a + b) <==> any_truncated(a) || any_truncated(b),
        !any_truncated(Seq::<Probe>::empty()),
{
    let one = seq![p];
    assert(one[0] == p);
    let ab = a + b;
    if any_truncated(a) {
        let i = choose|i: int| 0 <= i < a.len() && (#[trigger] a[i]).files > 0 && a[i].truncated;
        assert(ab[i].files > 0 && ab[i].truncated);
    }
    if any_truncated(b) {
        let i = choose|i: int| 0 <= i < b.len() && (#[trigger] b[i]).files > 0 && b[i].truncated;
        assert(ab[a.len() + i].files > 0 && ab[a.len() + i].truncated);
    }
    if any_truncated(ab) {
        let i = choose|i: int| 0 <= i < ab.len() && (#[trigger] ab[i]).files > 0 && ab[i].truncated;
        if i < a.len() {
            assert(a[i].files > 0 && a[i].truncated);
        } else {
            assert(b[i - a.len()].files > 0 && b[i - a.len()].truncated);
        }
    }
}

/// Each proposed root is a candidate that holds files, under its own path, with how many it holds,
/// and with the profile that was forced or that its files suggest.
pub proof fn a_proposal_says_what_each_root_holds(
    p: Proposal,
    candidates: Seq<String>,
    probes: Seq<Probe>,
    forced: Option<Profile>,
    k: int,
) -> (i: int)
    requires
        proposes(p, candidates, probes, forced),
        0 <= k < p.roots@.len(),
    ensures
        0 <= i < probes.len(),
        probes[i].files > 0,
        p.roots@[k].path@ == candidates[i]@,
        !probes[i].truncated ==> p.counts@[k]@ == text::decimal(probes[i].files as nat),
        probes[i].truncated ==> p.counts@[k]@ == text::decimal(probes[i].files as nat) + seq!['+'],
        forced matches Some(f) ==> p.roots@[k].profile == f,
        forced is None && probes[i].is_code() ==> p.roots@[k].profile == Profile::Code,
        forced is None && !probes[i].is_code() ==> p.roots@[k].profile == Profile::Content,
        p.total_files == files_in_all(probes),
        p.truncated == any_truncated(probes),
{
    let i = filled_roots(probes)[k];
    every_candidate_with_files_is_proposed(probes, i);
    assert(filled_roots(probes).contains(i));
    assert(p.roots@[k].path@ == candidates[i]@);
    all_files_are_counted(probes, probes, probes[i]);
    i
}

} // verus!
