//! Measurement: the sample documents, the golden retrieval cases, and what counts as a hit.
use crate::actions;
use crate::chars;
use crate::config::Config;
use crate::embed;
use crate::search::{Mode, Request, SearchResult};
use crate::text;
use vstd::prelude::*;

verus! {

/// One golden retrieval case: a query and a substring the right answer contains.
#[derive(Debug, Clone, Copy)]
pub struct GoldenCase {
    pub query: &'static str,
    pub expect_contains: &'static str,
}

/// The golden retrieval cases: each query and what the right answer contains. The last three are
/// semantic, not lexical: none of their words appear in the target path.
pub open spec fn golden_cases() -> Seq<GoldenCase> {
    seq![
        GoldenCase { query: "employment documents", expect_contains: "employment" },
        GoldenCase { query: "bosnia", expect_contains: "bosnia" },
        GoldenCase { query: "sensors monitor", expect_contains: "esp32" },
        GoldenCase { query: "tax forms from my employer", expect_contains: "employment" },
        GoldenCase { query: "balkans holiday", expect_contains: "bosnia" },
        GoldenCase { query: "embedded display firmware", expect_contains: "esp32" },
    ]
}

/// The golden retrieval cases. A pooling or query-prefix mistake still produces well-formed unit
/// vectors and plausible-looking output, so only an end-to-end check on known-good answers catches
/// it.
pub fn golden() -> (r: Vec<GoldenCase>)
    ensures
        r@ == golden_cases(),
{
    let mut v: Vec<GoldenCase> = Vec::new();
    v.push(GoldenCase { query: "employment documents", expect_contains: "employment" });
    v.push(GoldenCase { query: "bosnia", expect_contains: "bosnia" });
    v.push(GoldenCase { query: "sensors monitor", expect_contains: "esp32" });
    v.push(GoldenCase { query: "tax forms from my employer", expect_contains: "employment" });
    v.push(GoldenCase { query: "balkans holiday", expect_contains: "bosnia" });
    v.push(GoldenCase { query: "embedded display firmware", expect_contains: "esp32" });
    proof {
        assert(v@ =~= golden_cases());
    }
    v
}

// ------------------------------------------------------------------ sample documents

/// `s`, `n` times.
pub open spec fn repeated(s: Seq<char>, n: nat) -> Seq<char>
    decreases n,
{
    if n == 0 {
        seq![]
    } else {
        repeated(s, (n - 1) as nat) + s
    }
}

fn repeat(s: &str, n: usize) -> (r: String)
    ensures
        r@ == repeated(s@, n as nat),
{
    let mut out = String::new();
    let mut i: usize = 0;
    proof {
        assert(out@ =~= repeated(s@, 0));
    }
    while i < n
        invariant
            i <= n,
            out@ == repeated(s@, i as nat),
        decreases n - i,
    {
        out.append(s);
        i += 1;
    }
    out
}

/// The `i`-th sample document: of ten, six are short, three medium and one long.
pub open spec fn sample(i: nat) -> Seq<char> {
    if i % 10 <= 5 {
        "projects/esp32_epaper/src/main.cpp\nprojects esp32 epaper src main cpp variant "@
            + text::decimal(i)
    } else if i % 10 <= 8 {
        "Documents/tax/2024_W2.pdf\ndocuments tax 2024 w2 pdf\n\nWage and Tax Statement. Employer identification number. Wages, tips, other compensation. Federal income tax withheld. Social security wages. variant "@
            + text::decimal(i)
    } else {
        "Documents/notes/long_"@ + text::decimal(i) + ".md\n\n"@ + repeated(
            "The quick brown fox jumps over the lazy dog near the riverbank. "@,
            20,
        )
    }
}

/// Texts whose lengths mirror what the indexer sends: mostly short path-and-name strings, some
/// medium documents, a few long ones. Uniform lengths would overstate throughput, because real
/// batches pay for padding to their longest member.
pub fn sample_docs(n: usize) -> (r: Vec<String>)
    ensures
        r@.len() == n,
        forall|i: int| 0 <= i < n ==> (#[trigger] r@[i])@ == sample(i as nat),
{
    let body = repeat("The quick brown fox jumps over the lazy dog near the riverbank. ", 20);
    let mut out: Vec<String> = Vec::new();
    let mut i: usize = 0;
    while i < n
        invariant
            body@ == repeated(
                "The quick brown fox jumps over the lazy dog near the riverbank. "@,
                20,
            ),
            i <= n,
            out@.len() == i,
            forall|k: int| 0 <= k < i ==> (#[trigger] out@[k])@ == sample(k as nat),
        decreases n - i,
    {
        let k: usize = i % 10;
        let number = text::dec(i as u64);
        let doc = if k <= 5 {
            let mut s =
                "projects/esp32_epaper/src/main.cpp\nprojects esp32 epaper src main cpp variant ".to_owned();
            s.append(number.as_str());
            s
        } else if k <= 8 {
            let mut s =
                "Documents/tax/2024_W2.pdf\ndocuments tax 2024 w2 pdf\n\nWage and Tax Statement. Employer identification number. Wages, tips, other compensation. Federal income tax withheld. Social security wages. variant ".to_owned();
            s.append(number.as_str());
            s
        } else {
            let mut s = "Documents/notes/long_".to_owned();
            s.append(number.as_str());
            s.append(".md\n\n");
            s.append(body.as_str());
            s
        };
        out.push(doc);
        i += 1;
    }
    out
}

// ------------------------------------------------------------------ recall

/// Whether a result list holds the expected answer: a path that contains it, both in lower case.
pub open spec fn answered(results: Seq<SearchResult>, expect: Seq<char>) -> bool {
    exists|i: int|
        0 <= i < results.len() && chars::has_substring(
            chars::lower((#[trigger] results[i]).path@),
            chars::lower(expect),
        )
}

/// Whether `top` lists the first results, three at most.
pub open spec fn shows_top(top: Seq<String>, results: Seq<SearchResult>) -> bool {
    &&& top.len() == if results.len() < 3 {
        results.len() as int
    } else {
        3
    }
    &&& forall|i: int|
        0 <= i < top.len() ==> (#[trigger] top[i])@ == actions::listed(results[i])
}

/// Judges one golden case: nothing for a hit; for a miss, the first three results instead.
pub fn miss(results: &Vec<SearchResult>, case: &GoldenCase) -> (r: Option<Vec<String>>)
    ensures
        match r {
            None => answered(results@, case.expect_contains@),
            Some(top) => {
                &&& !answered(results@, case.expect_contains@)
                &&& shows_top(top@, results@)
            },
        },
{
    let want = case.expect_contains.to_lowercase();
    let mut i: usize = 0;
    while i < results.len()
        invariant
            want@ == chars::lower(case.expect_contains@),
            i <= results@.len(),
            forall|k: int|
                0 <= k < i ==> !chars::has_substring(
                    chars::lower((#[trigger] results@[k]).path@),
                    want@,
                ),
        decreases results@.len() - i,
    {
        let low = results[i].path.as_str().to_lowercase();
        if chars::contains(low.as_str(), want.as_str()) {
            return None;
        }
        i += 1;
    }
    let mut top: Vec<String> = Vec::new();
    let mut j: usize = 0;
    while j < results.len() && j < 3
        invariant
            j <= results@.len(),
            j <= 3,
            top@.len() == j,
            forall|k: int| 0 <= k < j ==> (#[trigger] top@[k])@ == actions::listed(results@[k]),
        decreases 3 - j,
    {
        top.push(results[j].display());
        j += 1;
    }
    Some(top)
}

/// The search that a golden case runs: everywhere, with both halves, and the configured floor.
pub fn golden_request(case: &GoldenCase, cfg: &Config, limit: usize) -> (r: Request)
    ensures
        r.text@ == case.query@,
        r.scope@.len() == 0,
        r.limit == limit,
        r.mode == Mode::Hybrid,
        r.min_similarity == cfg.floor(),
{
    Request {
        text: case.query.to_owned(),
        scope: Vec::new(),
        limit,
        mode: Mode::Hybrid,
        min_similarity: cfg.resolved_min_similarity(),
    }
}

/// A golden query that missed, with the first results instead.
#[derive(Debug, Clone)]
pub struct Missed {
    pub query: &'static str,
    pub top: Vec<String>,
}

/// How the golden cases fared.
#[derive(Debug, Clone)]
pub struct RecallReport {
    pub hits: usize,
    pub misses: Vec<Missed>,
}

impl RecallReport {
    /// A report on no cases.
    pub fn start() -> (r: Self)
        ensures
            r.hits == 0,
            r.misses@.len() == 0,
    {
        RecallReport { hits: 0, misses: Vec::new() }
    }

    /// Adds the verdict on one case.
    pub fn judge(&mut self, case: &GoldenCase, results: &Vec<SearchResult>)
        requires
            old(self).hits < usize::MAX,
        ensures
            answered(results@, case.expect_contains@) ==> final(self).hits == old(self).hits + 1
                && final(self).misses@ == old(self).misses@,
            !answered(results@, case.expect_contains@) ==> final(self).hits == old(self).hits
                && final(self).misses@.len() == old(self).misses@.len() + 1
                && final(self).misses@.drop_last() == old(self).misses@
                && final(self).misses@.last().query@ == case.query@
                && shows_top(final(self).misses@.last().top@, results@),
    {
        match miss(results, case) {
            None => {
                self.hits = self.hits + 1;
            },
            Some(top) => {
                self.misses.push(Missed { query: case.query, top });
                proof {
                    assert(self.misses@.drop_last() =~= old(self).misses@);
                }
            },
        }
    }
}

/// The models to measure: those named, or the configured one.
pub open spec fn asked_models(named: Seq<String>, configured: Seq<char>) -> Seq<Seq<char>> {
    if named.len() == 0 {
        seq![configured]
    } else {
        text::views(named)
    }
}

/// Whether the `i`-th of `ids` is the first that is not registered; all are, where `i` is past the
/// end.
pub open spec fn first_unknown(ids: Seq<Seq<char>>, i: int) -> bool {
    &&& i < ids.len() ==> embed::registered(ids[i]) is None
    &&& forall|j: int| 0 <= j < i && j < ids.len() ==> embed::registered(#[trigger] ids[j]) is Some
}

/// The models to measure: those named, or the configured one. All must be registered, so that a bad
/// name fails before minutes are spent downloading the good ones.
pub fn bench_models(named: &Vec<String>, configured: &str) -> (r: Result<Vec<String>, String>)
    ensures
        ({
            let want = asked_models(named@, configured@);
            match r {
                Ok(v) => text::views(v@) == want && first_unknown(want, want.len() as int),
                Err(m) => exists|i: int|
                    0 <= i < want.len() && #[trigger] first_unknown(want, i) && m@
                        == embed::unknown_model(want[i]),
            }
        }),
{
    let mut v: Vec<String> = Vec::new();
    if named.len() == 0 {
        v.push(configured.to_owned());
        proof {
            assert(text::views(v@) =~= seq![configured@]);
        }
    } else {
        let mut i: usize = 0;
        proof {
            assert(text::views(v@) =~= text::views(named@).take(0));
        }
        while i < named.len()
            invariant
                i <= named@.len(),
                text::views(v@) == text::views(named@).take(i as int),
            decreases named@.len() - i,
        {
            let s = named[i].as_str().to_owned();
            proof {
                text::lemma_views_push(v@, s);
                assert(text::views(named@).take(i + 1) =~= text::views(named@).take(i as int).push(
                    s@,
                ));
            }
            v.push(s);
            i += 1;
        }
        proof {
            assert(text::views(named@).take(named@.len() as int) =~= text::views(named@));
            assert(text::views(named@).len() == named@.len());
        }
    }
    let ghost want = text::views(v@);
    let mut i: usize = 0;
    while i < v.len()
        invariant
            want == text::views(v@),
            want == asked_models(named@, configured@),
            want.len() == v@.len(),
            i <= v@.len(),
            forall|j: int| 0 <= j < i ==> embed::registered(#[trigger] want[j]) is Some,
        decreases v@.len() - i,
    {
        proof {
            assert(want[i as int] == v@[i as int]@);
        }
        match embed::lookup(v[i].as_str()) {
            Ok(_) => {},
            Err(m) => {
                proof {
                    assert(first_unknown(want, i as int));
                }
                return Err(m);
            },
        }
        i += 1;
    }
    Ok(v)
}

// ------------------------------------------------------------------ laws

/// The golden cases: what is asked, and what the right answer contains.
pub proof fn the_golden_cases_are_these()
    ensures
        golden_cases().map_values(|c: GoldenCase| (c.query@, c.expect_contains@)) == seq![
            ("employment documents"@, "employment"@),
            ("bosnia"@, "bosnia"@),
            ("sensors monitor"@, "esp32"@),
            ("tax forms from my employer"@, "employment"@),
            ("balkans holiday"@, "bosnia"@),
            ("embedded display firmware"@, "esp32"@),
        ],
{
    assert(golden_cases().map_values(|c: GoldenCase| (c.query@, c.expect_contains@)) =~= seq![
        ("employment documents"@, "employment"@),
        ("bosnia"@, "bosnia"@),
        ("sensors monitor"@, "esp32"@),
        ("tax forms from my employer"@, "employment"@),
        ("balkans holiday"@, "bosnia"@),
        ("embedded display firmware"@, "esp32"@),
    ]);
}

/// A text repeated is as long as all its copies, and reads the same in each of them.
pub proof fn a_repeated_text_reads_the_same_in_each_copy(s: Seq<char>, n: nat, k: int, i: int)
    requires
        0 <= k < n,
        0 <= i < s.len(),
    ensures
        repeated(s, n).len() == n * s.len(),
        0 <= k * s.len() + i < repeated(s, n).len(),
        repeated(s, n)[k * s.len() + i] == s[i],
    decreases n,
{
    lemma_repeated_length(s, n);
    lemma_repeated_length(s, (n - 1) as nat);
    let l = s.len() as int;
    assert((n - 1) * l + l == n * l) by (nonlinear_arith);
    assert(k * l >= 0) by (nonlinear_arith)
        requires
            k >= 0,
            l >= 0,
    ;
    if k < n - 1 {
        assert(k * l + l <= (n - 1) * l) by (nonlinear_arith)
            requires
                k + 1 <= n - 1,
                l >= 0,
        ;
        a_repeated_text_reads_the_same_in_each_copy(s, (n - 1) as nat, k, i);
    }
}

proof fn lemma_repeated_length(s: Seq<char>, n: nat)
    ensures
        repeated(s, n).len() == n * s.len(),
    decreases n,
{
    if n > 0 {
        lemma_repeated_length(s, (n - 1) as nat);
        assert((n - 1) * s.len() + s.len() == n * s.len()) by (nonlinear_arith);
    } else {
        assert(0 * s.len() == 0) by (nonlinear_arith);
    }
}

/// Of ten sample documents six are short, three longer, and one long; each holds its number, so
/// that no two are the same text.
pub proof fn sample_documents_are_of_three_lengths(i: nat)
    ensures
        i % 10 < 6 ==> sample(i)
            == "projects/esp32_epaper/src/main.cpp\nprojects esp32 epaper src main cpp variant "@
            + text::decimal(i),
        6 <= i % 10 < 9 ==> sample(i)
            == "Documents/tax/2024_W2.pdf\ndocuments tax 2024 w2 pdf\n\nWage and Tax Statement. Employer identification number. Wages, tips, other compensation. Federal income tax withheld. Social security wages. variant "@
            + text::decimal(i),
        i % 10 == 9 ==> sample(i) == "Documents/notes/long_"@ + text::decimal(i) + ".md\n\n"@
            + repeated("The quick brown fox jumps over the lazy dog near the riverbank. "@, 20),
{
}

/// A case counts as answered exactly where some result has a path with the expected text in it,
/// whatever its place and whatever the case of its letters; and a miss shows the first three.
pub proof fn one_right_result_is_enough(
    results: Seq<SearchResult>,
    expect: Seq<char>,
    i: int,
    top: Seq<String>,
    k: int,
)
    requires
        0 <= i < results.len(),
        0 <= k < 3,
        k < results.len(),
    ensures
        chars::has_substring(chars::lower(results[i].path@), chars::lower(expect)) ==> answered(
            results,
            expect,
        ),
        !answered(Seq::<SearchResult>::empty(), expect),
        shows_top(top, results) ==> top.len() <= 3 && k < top.len() && top[k]@ == actions::listed(
            results[k],
        ),
        shows_top(top, results) && results.len() < 3 ==> top.len() == results.len(),
{
}

/// Every named model is measured, in order; the configured one only where none is named.
pub proof fn every_named_model_is_measured(named: Seq<String>, configured: Seq<char>, i: int)
    requires
        0 <= i < named.len(),
    ensures
        asked_models(named, configured).len() == named.len(),
        asked_models(named, configured)[i] == named[i]@,
        asked_models(Seq::<String>::empty(), configured) == seq![configured],
{
}

} // verus!
