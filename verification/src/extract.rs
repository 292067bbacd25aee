//! Turning a file into the text that is embedded and indexed.
//!
//! Two outputs per file: a body (extracted content, truncated to the profile's budget) and name
//! tokens (the path and filename split into words). The name tokens matter as much as the body:
//! they are what lets `2024_W2.pdf` answer "employment documents" even when its text extracts
//! poorly.
use crate::chars;
use crate::config::Config;
use crate::config::ExtractConfig;
use crate::config::Profile;
use crate::digest;
use crate::path;
use crate::text;
use vstd::prelude::*;

verus! {

/// Which extractor produced a body.
#[derive(Debug, Clone, Copy, PartialEq, Eq, Structural)]
pub enum Kind {
    Text,
    Pdf,
    Office,
    Media,
    /// No body. The file is still indexed and findable by path.
    NameOnly,
}

impl Kind {
    /// The kind's name in the index.
    pub fn as_str(self) -> (r: &'static str)
        ensures
            r@ == match self {
                Kind::Text => "text"@,
                Kind::Pdf => "pdf"@,
                Kind::Office => "office"@,
                Kind::Media => "media"@,
                Kind::NameOnly => "name-only"@,
            },
    {
        match self {
            Kind::Text => "text",
            Kind::Pdf => "pdf",
            Kind::Office => "office",
            Kind::Media => "media",
            Kind::NameOnly => "name-only",
        }
    }
}

/// What was extracted from a file.
pub struct Extracted {
    pub kind: Kind,
    pub body: String,
    /// The first ~300 characters, for the preview pane.
    pub snippet: String,
}

/// Which optional external tools exist on this machine. A missing tool degrades that file type to
/// name-only rather than failing.
#[derive(Debug, Clone, Copy, PartialEq, Eq, Structural)]
pub struct Capabilities {
    pub pdftotext: bool,
    pub exiftool: bool,
}

/// What the user is told about missing PDF support.
pub open spec fn pdf_gap() -> Seq<char> {
    "pdftotext not found: PDFs will be indexed by filename only (install poppler-utils)"@
}

/// What the user is told about missing photo locations.
pub open spec fn geo_gap() -> Seq<char> {
    "extract.geo is on but exiftool was not found: GPS locations will not be indexed (install libimage-exiftool-perl)"@
}

impl Capabilities {
    /// From whether each tool was found.
    pub fn detect(pdftotext: bool, exiftool: bool) -> (r: Self)
        ensures
            r.pdftotext == pdftotext,
            r.exiftool == exiftool,
    {
        Capabilities { pdftotext, exiftool }
    }

    /// What is missing, for a user who wonders why their PDFs are not searchable.
    pub fn describe_gaps(&self, geo: bool) -> (r: Vec<String>)
        ensures
            text::views(r@) == (if self.pdftotext {
                Seq::<Seq<char>>::empty()
            } else {
                seq![pdf_gap()]
            }) + (if geo && !self.exiftool {
                seq![geo_gap()]
            } else {
                Seq::<Seq<char>>::empty()
            }),
    {
        let mut out: Vec<String> = Vec::new();
        if !self.pdftotext {
            out.push(
                "pdftotext not found: PDFs will be indexed by filename only (install poppler-utils)".to_owned(),
            );
        }
        if geo && !self.exiftool {
            out.push(
                "extract.geo is on but exiftool was not found: GPS locations will not be indexed (install libimage-exiftool-perl)".to_owned(),
            );
        }
        proof {
            assert(text::views(out@) =~= (if self.pdftotext {
                Seq::<Seq<char>>::empty()
            } else {
                seq![pdf_gap()]
            }) + (if geo && !self.exiftool {
                seq![geo_gap()]
            } else {
                Seq::<Seq<char>>::empty()
            }));
        }
        out
    }
}

// ------------------------------------------------------------------ dispatch

/// How to get at a file's text.
#[derive(Debug, Clone, Copy, PartialEq, Eq, Structural)]
pub enum Extractor {
    /// Not at all.
    Nothing,
    /// With the PDF tool.
    Pdf,
    /// From the container's parts.
    Office,
    /// From the metadata that the media tool prints.
    Media,
    /// From the head of the file, unless it looks binary.
    Head,
}

/// The file's extension in lower case, or nothing.
pub open spec fn lower_extension(p: Seq<char>) -> Seq<char> {
    match path::extension_of(p) {
        Some(e) => chars::ascii_lower(e),
        None => Seq::<char>::empty(),
    }
}

/// The extensions of office containers.
pub open spec fn office_extension(e: Seq<char>) -> bool {
    e == "docx"@ || e == "odt"@ || e == "pptx"@ || e == "odp"@ || e == "xlsx"@ || e == "ods"@
}

/// The extensions of images, video and audio.
pub open spec fn media_extension(e: Seq<char>) -> bool {
    e == "jpg"@ || e == "jpeg"@ || e == "png"@ || e == "gif"@ || e == "webp"@ || e == "tiff"@ || e
        == "tif"@ || e == "bmp"@ || e == "heic"@ || e == "avif"@ || e == "raw"@ || e == "cr2"@ || e
        == "nef"@ || e == "mp4"@ || e == "mkv"@ || e == "avi"@ || e == "mov"@ || e == "webm"@ || e
        == "flv"@ || e == "wmv"@ || e == "mp3"@ || e == "flac"@ || e == "wav"@ || e == "ogg"@ || e
        == "opus"@ || e == "m4a"@ || e == "aac"@
}

/// Whether an extension, in lower case, is that of an image, video or audio file.
pub fn is_media_ext(e: &str) -> (r: bool)
    ensures
        r == media_extension(e@),
{
    text::same(e, "jpg") || text::same(e, "jpeg") || text::same(e, "png") || text::same(e, "gif")
        || text::same(e, "webp") || text::same(e, "tiff") || text::same(e, "tif") || text::same(
        e,
        "bmp",
    ) || text::same(e, "heic") || text::same(e, "avif") || text::same(e, "raw") || text::same(
        e,
        "cr2",
    ) || text::same(e, "nef") || text::same(e, "mp4") || text::same(e, "mkv") || text::same(
        e,
        "avi",
    ) || text::same(e, "mov") || text::same(e, "webm") || text::same(e, "flv") || text::same(
        e,
        "wmv",
    ) || text::same(e, "mp3") || text::same(e, "flac") || text::same(e, "wav") || text::same(
        e,
        "ogg",
    ) || text::same(e, "opus") || text::same(e, "m4a") || text::same(e, "aac")
}

fn is_office_ext(e: &str) -> (r: bool)
    ensures
        r == office_extension(e@),
{
    text::same(e, "docx") || text::same(e, "odt") || text::same(e, "pptx") || text::same(e, "odp")
        || text::same(e, "xlsx") || text::same(e, "ods")
}

/// Which extractor a file gets: none under a profile without a body budget; by extension the PDF
/// tool (without it a PDF is found by its name only), an office container, or media (where media is
/// read at all); and otherwise the head of the file.
pub open spec fn extractor_for(
    p: Seq<char>,
    profile: Profile,
    cfg: ExtractConfig,
    caps: Capabilities,
) -> Extractor {
    let e = lower_extension(p);
    if profile.tokens() == 0 {
        Extractor::Nothing
    } else if e == "pdf"@ {
        if caps.pdftotext {
            Extractor::Pdf
        } else {
            Extractor::Nothing
        }
    } else if office_extension(e) {
        Extractor::Office
    } else if media_extension(e) {
        if cfg.media {
            Extractor::Media
        } else {
            Extractor::Nothing
        }
    } else {
        Extractor::Head
    }
}

/// Decides which extractor a file gets.
pub fn choose_extractor(p: &str, profile: Profile, cfg: &ExtractConfig, caps: &Capabilities) -> (r:
    Extractor)
    ensures
        r == extractor_for(p@, profile, *cfg, *caps),
{
    let e = match path::extension(p) {
        Some(e) => chars::to_ascii_lowercase(e.as_str()),
        None => String::new(),
    };
    proof {
        assert(e@ =~= lower_extension(p@));
    }
    if profile.body_tokens() == 0 {
        Extractor::Nothing
    } else if text::same(e.as_str(), "pdf") {
        if caps.pdftotext {
            Extractor::Pdf
        } else {
            Extractor::Nothing
        }
    } else if is_office_ext(e.as_str()) {
        Extractor::Office
    } else if is_media_ext(e.as_str()) {
        if cfg.media {
            Extractor::Media
        } else {
            Extractor::Nothing
        }
    } else {
        Extractor::Head
    }
}

/// Character budget for the body: about four characters per token of the profile's budget. Erring
/// long is harmless, since the tokenizer truncates anyway.
pub fn body_budget_chars(profile: Profile) -> (r: usize)
    ensures
        r == profile.tokens() * 4,
{
    profile.body_tokens() * 4
}

/// The kind an extractor's output is recorded as.
pub open spec fn kind_of(e: Extractor) -> Kind {
    match e {
        Extractor::Nothing => Kind::NameOnly,
        Extractor::Pdf => Kind::Pdf,
        Extractor::Office => Kind::Office,
        Extractor::Media => Kind::Media,
        Extractor::Head => Kind::Text,
    }
}

/// The body that is kept of an extractor's output.
pub open spec fn body_of(raw: Option<Seq<char>>, budget: nat) -> Seq<char> {
    match raw {
        Some(s) => normalised(s, budget),
        None => Seq::<char>::empty(),
    }
}

/// What an extractor yielded, if it is one that yields anything.
pub open spec fn yielded(extractor: Extractor, raw: Option<String>) -> Option<Seq<char>> {
    match raw {
        Some(s) => if extractor == Extractor::Nothing {
            None
        } else {
            Some(s@)
        },
        None => None,
    }
}

/// Finishes an extraction: `raw` is what the extractor yielded, if anything. An extractor that ran
/// but produced nothing is recorded as name-only, so that coverage numbers reflect what is actually
/// searchable; and what is recorded as name-only has no body.
pub fn finish(extractor: Extractor, raw: Option<String>, profile: Profile) -> (r: Extracted)
    ensures
        r.body@ == body_of(yielded(extractor, raw), (profile.tokens() * 4) as nat),
        r.snippet@ == chars::first_chars(r.body@, 300),
        r.kind == (if r.body@.len() == 0 {
            Kind::NameOnly
        } else {
            kind_of(extractor)
        }),
        r.kind == Kind::NameOnly <==> r.body@.len() == 0,
        r.body@.len() <= profile.tokens() * 4,
        is_tidy(r.body@),
{
    let budget: usize = body_budget_chars(profile);
    let body = if extractor == Extractor::Nothing {
        String::new()
    } else {
        match raw {
            Some(s) => normalise_ws(s.as_str(), budget),
            None => String::new(),
        }
    };
    proof {
        match yielded(extractor, raw) {
            Some(s) => {
                a_normalised_text_is_tidy(s, budget as nat);
            },
            None => {},
        }
    }
    let snippet = chars::take_chars(body.as_str(), 300);
    let kind = if body.as_str().is_empty() {
        Kind::NameOnly
    } else {
        match extractor {
            Extractor::Nothing => Kind::NameOnly,
            Extractor::Pdf => Kind::Pdf,
            Extractor::Office => Kind::Office,
            Extractor::Media => Kind::Media,
            Extractor::Head => Kind::Text,
        }
    };
    Extracted { kind, body, snippet }
}

// ------------------------------------------------------------------ text

/// Bytes to read for a body of `budget_chars` characters.
///
/// 8 bytes per kept character covers multibyte text and the whitespace that collapsing removes. The
/// 4 KB floor keeps the binary sniff meaningful; the configured ceiling wins over the floor if the
/// user set it lower.
pub fn read_size(cfg: &Config, budget_chars: usize) -> (r: usize)
    requires
        cfg.extract.max_read_kb * 1024 <= u64::MAX,
    ensures
        r == vstd::math::min(
            vstd::math::max(vstd::math::min(budget_chars * 8, usize::MAX as int), 4096),
            vstd::math::min(
                (cfg.extract.max_read_kb * 1024) as u64 as usize as int,
                0x10_0000,
            ),
        ),
{
    let asked: usize = (cfg.extract.max_read_kb * 1024) as usize;
    let ceiling: usize = if asked < 0x10_0000 {
        asked
    } else {
        0x10_0000
    };
    let want: usize = if budget_chars > usize::MAX / 8 {
        usize::MAX
    } else {
        budget_chars * 8
    };
    let floor: usize = if want < 4096 {
        4096
    } else {
        want
    };
    if floor < ceiling {
        floor
    } else {
        ceiling
    }
}

/// How many bytes of `b` are control bytes that text does not use.
pub open spec fn weird_bytes(b: Seq<u8>) -> nat
    decreases b.len(),
{
    if b.len() == 0 {
        0
    } else {
        weird_bytes(b.drop_last()) + if b.last() < 0x09 || 0x0d < b.last() < 0x20 {
            1nat
        } else {
            0
        }
    }
}

/// The part of a buffer that is sniffed.
pub open spec fn sniffed(buf: Seq<u8>) -> Seq<u8> {
    buf.take(
        if buf.len() <= 8192 {
            buf.len() as int
        } else {
            8192
        },
    )
}

/// A NUL byte in the first 8 KB, or more than a tenth of control bytes there.
pub open spec fn binary(buf: Seq<u8>) -> bool {
    let head = sniffed(buf);
    head.contains(0u8) || (head.len() > 0 && weird_bytes(head) * 100 / head.len() > 10)
}

/// Whether a buffer looks like a binary file.
pub fn looks_binary(buf: &[u8]) -> (r: bool)
    ensures
        r == binary(buf@),
{
    let n: usize = if buf.len() <= 8192 {
        buf.len()
    } else {
        8192
    };
    let ghost head = sniffed(buf@);
    let mut weird: usize = 0;
    let mut i: usize = 0;
    while i < n
        invariant
            n <= buf@.len(),
            n <= 8192,
            head == sniffed(buf@),
            head.len() == n,
            i <= n,
            weird == weird_bytes(head.take(i as int)),
            weird <= i,
            forall|k: int| 0 <= k < i ==> head[k] != 0,
        decreases n - i,
    {
        let b: u8 = buf[i];
        proof {
            assert(head[i as int] == b);
            assert(head.take(i + 1).drop_last() =~= head.take(i as int));
        }
        if b == 0 {
            return true;
        }
        if b < 0x09 || (b > 0x0d && b < 0x20) {
            weird += 1;
        }
        i += 1;
    }
    proof {
        assert(head.take(n as int) =~= head);
    }
    if n == 0 {
        return false;
    }
    weird * 100 / n > 10
}

/// The text of a file's head, or `None` if it looks binary.
pub fn text_of(head: &[u8]) -> (r: Option<String>)
    ensures
        match r {
            Some(s) => !binary(head@) && s@ == chars::lossy(head@),
            None => binary(head@),
        },
{
    if looks_binary(head) {
        return None;
    }
    Some(chars::from_utf8_lossy(head))
}

/// The text that an external tool printed, or `None` if it is blank. A tool may fail on a damaged
/// file while still emitting usable text, so its exit status is not asked for.
pub fn tool_text(stdout: &[u8]) -> (r: Option<String>)
    ensures
        match r {
            Some(s) => s@ == chars::lossy(stdout@) && chars::trimmed(s@).len() > 0,
            None => chars::trimmed(chars::lossy(stdout@)).len() == 0,
        },
{
    let s = chars::from_utf8_lossy(stdout);
    if chars::is_blank(s.as_str()) {
        return None;
    }
    Some(s)
}

// ------------------------------------------------------------------ whitespace

/// `s` with runs of white space collapsed to one space, none at the start, and control characters
/// left out.
pub open spec fn squeezed(s: Seq<char>) -> Seq<char>
    decreases s.len(),
{
    if s.len() == 0 {
        seq![]
    } else {
        let out = squeezed(s.drop_last());
        let c = s.last();
        if chars::whitespace(c) {
            if out.len() == 0 || out.last() == ' ' {
                out
            } else {
                out.push(' ')
            }
        } else if chars::control(c) {
            out
        } else {
            out.push(c)
        }
    }
}

/// `s` squeezed, cut to `budget` characters, and without trailing spaces.
pub open spec fn normalised(s: Seq<char>, budget: nat) -> Seq<char> {
    chars::strip_end(chars::first_chars(squeezed(s), budget), ' ')
}

proof fn lemma_squeezed_grows(s: Seq<char>, n: int)
    requires
        0 <= n <= s.len(),
    ensures
        squeezed(s.take(n)).len() <= squeezed(s).len(),
        squeezed(s).take(squeezed(s.take(n)).len() as int) == squeezed(s.take(n)),
    decreases s.len(),
{
    if n == s.len() {
        assert(s.take(n) =~= s);
        assert(squeezed(s).take(squeezed(s).len() as int) =~= squeezed(s));
    } else {
        let init = s.drop_last();
        assert(init.take(n) =~= s.take(n));
        lemma_squeezed_grows(init, n);
        let k = squeezed(s.take(n)).len() as int;
        assert(squeezed(s).take(k) =~= squeezed(init).take(k));
    }
}

/// Stripping never lengthens.
proof fn lemma_strip_end_len(s: Seq<char>, c: char)
    ensures
        chars::strip_end(s, c).len() <= s.len(),
    decreases s.len(),
{
    if s.len() > 0 && s.last() == c {
        lemma_strip_end_len(s.drop_last(), c);
    }
}

/// Collapses runs of whitespace and truncates to `budget` characters. Extracted text is full of
/// layout whitespace, which wastes tokens the model could spend on words.
pub fn normalise_ws(s: &str, budget: usize) -> (r: String)
    ensures
        r@ == normalised(s@, budget as nat),
        r@.len() <= budget,
{
    let cs = text::chars_of(s);
    let mut out = String::new();
    let mut kept: usize = 0;
    let mut last_ws = true;
    let mut i: usize = 0;
    while i < cs.len() && kept < budget
        invariant
            cs@ == s@,
            i <= cs@.len(),
            kept <= budget,
            kept == out@.len(),
            out@ == squeezed(cs@.take(i as int)),
            last_ws == (out@.len() == 0 || out@.last() == ' '),
        decreases cs@.len() - i,
    {
        let c = cs[i];
        proof {
            assert(cs@.take(i + 1).drop_last() =~= cs@.take(i as int));
            assert(cs@.take(i + 1).last() == c);
        }
        if c.is_whitespace() {
            if !last_ws {
                out.push(' ');
                kept += 1;
                last_ws = true;
            }
        } else if c.is_control() {
        } else {
            out.push(c);
            kept += 1;
            last_ws = false;
        }
        i += 1;
    }
    proof {
        lemma_squeezed_grows(cs@, i as int);
        if i == cs@.len() {
            assert(cs@.take(i as int) =~= cs@);
        }
        assert(out@ =~= chars::first_chars(squeezed(s@), budget as nat));
        lemma_strip_end_len(out@, ' ');
    }
    chars::trim_end_char(out.as_str(), ' ')
}

// ------------------------------------------------------------------ names

/// The words that are complete after reading `s`, the word it ends in the middle of, and whether
/// it ends in a lower-case letter. Words end at anything but letters and digits, and before a
/// capital that follows a lower-case letter; they are kept in lower case.
pub open spec fn name_runs(s: Seq<char>) -> (Seq<Seq<char>>, Seq<char>, bool)
    decreases s.len(),
{
    if s.len() == 0 {
        (seq![], seq![], false)
    } else {
        let (done, cur, prev_lower) = name_runs(s.drop_last());
        let c = s.last();
        if chars::alphanumeric(c) {
            let low = chars::lower_ascii_char(c);
            if prev_lower && chars::uppercase(c) && cur.len() > 0 {
                (done.push(cur), seq![low], chars::lowercase(c))
            } else {
                (done, cur.push(low), chars::lowercase(c))
            }
        } else if cur.len() > 0 {
            (done.push(cur), seq![], false)
        } else {
            (done, seq![], false)
        }
    }
}

/// The words of one path component.
pub open spec fn name_words(s: Seq<char>) -> Seq<Seq<char>> {
    let (done, cur, _) = name_runs(s);
    if cur.len() > 0 {
        done.push(cur)
    } else {
        done
    }
}

/// Breaks one path component into words on non-alphanumeric separators and at lower-to-upper case
/// transitions, and appends them to `out`.
pub fn split_words(s: &str, out: &mut Vec<String>)
    ensures
        text::views(final(out)@) == text::views(old(out)@) + name_words(s@),
{
    let cs = text::chars_of(s);
    let ghost start = text::views(out@);
    let mut cur = String::new();
    let mut prev_lower = false;
    let mut i: usize = 0;
    let ghost mut done: Seq<Seq<char>> = seq![];
    proof {
        assert(start + done =~= start);
    }
    while i < cs.len()
        invariant
            cs@ == s@,
            i <= cs@.len(),
            name_runs(cs@.take(i as int)) == (done, cur@, prev_lower),
            text::views(out@) == start + done,
        decreases cs@.len() - i,
    {
        let c = cs[i];
        proof {
            assert(cs@.take(i + 1).drop_last() =~= cs@.take(i as int));
            assert(cs@.take(i + 1).last() == c);
        }
        if c.is_alphanumeric() {
            if prev_lower && c.is_uppercase() && !cur.as_str().is_empty() {
                proof {
                    text::lemma_views_push(out@, cur);
                    assert((start + done).push(cur@) =~= start + done.push(cur@));
                    done = done.push(cur@);
                }
                out.push(cur);
                cur = String::new();
            }
            cur.push(chars::to_ascii_lower(c));
            prev_lower = c.is_lowercase();
        } else {
            if !cur.as_str().is_empty() {
                proof {
                    text::lemma_views_push(out@, cur);
                    assert((start + done).push(cur@) =~= start + done.push(cur@));
                    done = done.push(cur@);
                }
                out.push(cur);
                cur = String::new();
            }
            prev_lower = false;
        }
        i += 1;
        proof {
            assert(name_runs(cs@.take(i as int)).1 =~= cur@);
        }
    }
    proof {
        assert(cs@.take(cs@.len() as int) =~= cs@);
    }
    if !cur.as_str().is_empty() {
        proof {
            text::lemma_views_push(out@, cur);
            assert((start + done).push(cur@) =~= start + done.push(cur@));
        }
        out.push(cur);
    }
}

/// The words longer than one byte, each kept only where it first occurs.
pub open spec fn distinct_words(words: Seq<Seq<char>>) -> Seq<Seq<char>>
    decreases words.len(),
{
    if words.len() == 0 {
        seq![]
    } else {
        let before = distinct_words(words.drop_last());
        let w = words.last();
        if vstd::utf8::encode_utf8(w).len() > 1 && !before.contains(w) {
            before.push(w)
        } else {
            before
        }
    }
}

fn has_word(words: &Vec<String>, w: &String) -> (r: bool)
    ensures
        r == text::views(words@).contains(w@),
{
    let mut i: usize = 0;
    while i < words.len()
        invariant
            i <= words@.len(),
            forall|k: int| 0 <= k < i ==> words@[k]@ != w@,
        decreases words@.len() - i,
    {
        if words[i] == *w {
            proof {
                assert(text::views(words@)[i as int] == w@);
            }
            return true;
        }
        i += 1;
    }
    proof {
        if text::views(words@).contains(w@) {
            let k = choose|k: int|
                0 <= k < text::views(words@).len() && text::views(words@)[k] == w@;
            assert(words@[k]@ == w@);
        }
    }
    false
}

/// Drops one-byte words and repetitions, keeping the order.
pub fn dedupe_preserving_order(words: &mut Vec<String>)
    ensures
        text::views(final(words)@) == distinct_words(text::views(old(words)@)),
{
    let ghost all = text::views(words@);
    let mut out: Vec<String> = Vec::new();
    let mut i: usize = 0;
    proof {
        assert(text::views(out@) =~= distinct_words(all.take(0)));
    }
    while i < words.len()
        invariant
            all == text::views(words@),
            all.len() == words@.len(),
            i <= words@.len(),
            text::views(out@) == distinct_words(all.take(i as int)),
        decreases words@.len() - i,
    {
        proof {
            assert(all.take(i + 1).drop_last() =~= all.take(i as int));
            assert(all.take(i + 1).last() == words@[i as int]@);
        }
        if words[i].as_str().as_bytes().len() > 1 && !has_word(&out, &words[i]) {
            let w = words[i].as_str().to_owned();
            proof {
                text::lemma_views_push(out@, w);
            }
            out.push(w);
        }
        i += 1;
    }
    proof {
        assert(all.take(all.len() as int) =~= all);
    }
    *words = out;
}

/// The words of several path components, one after the other.
pub open spec fn words_of_parts(parts: Seq<Seq<char>>) -> Seq<Seq<char>>
    decreases parts.len(),
{
    if parts.len() == 0 {
        seq![]
    } else {
        words_of_parts(parts.drop_last()) + name_words(parts.last())
    }
}

/// The part of `p` below `root`, or all of it where it is not below.
pub open spec fn relative_to(p: Seq<char>, root: Seq<char>) -> Seq<char> {
    match path::below(p, root) {
        Some(r) => r,
        None => p,
    }
}

fn relative(p: &str, root: &str) -> (r: String)
    ensures
        r@ == relative_to(p@, root@),
{
    match path::strip_prefix(p, root) {
        Some(r) => r,
        None => p.to_owned(),
    }
}

/// The searchable words of a path below `root`.
pub open spec fn token_text(p: Seq<char>, root: Seq<char>) -> Seq<char> {
    text::joined(
        distinct_words(words_of_parts(path::components(relative_to(p, root)))),
        " "@,
    )
}

/// Splits a path into searchable words: the filename and each parent directory, broken on
/// separators and camelCase boundaries. For much source code the meaning is in the path, not in
/// the file.
pub fn name_tokens(p: &str, root: &str) -> (r: String)
    ensures
        r@ == token_text(p@, root@),
{
    let rel = relative(p, root);
    let parts = path::components_of(rel.as_str());
    let ghost ps = text::views(parts@);
    let mut words: Vec<String> = Vec::new();
    let mut i: usize = 0;
    proof {
        assert(text::views(words@) =~= words_of_parts(ps.take(0)));
    }
    while i < parts.len()
        invariant
            ps == text::views(parts@),
            ps.len() == parts@.len(),
            i <= parts@.len(),
            text::views(words@) == words_of_parts(ps.take(i as int)),
        decreases parts@.len() - i,
    {
        proof {
            assert(ps.take(i + 1).drop_last() =~= ps.take(i as int));
            assert(ps.take(i + 1).last() == parts@[i as int]@);
        }
        split_words(parts[i].as_str(), &mut words);
        i += 1;
    }
    proof {
        assert(ps.take(ps.len() as int) =~= ps);
    }
    dedupe_preserving_order(&mut words);
    text::join(&words, " ")
}

/// The text handed to the model: the relative path first, then the name words, then the body, set
/// off by a blank line where there is one.
pub open spec fn embedded_text(
    p: Seq<char>,
    root: Seq<char>,
    tokens: Seq<char>,
    body: Seq<char>,
) -> Seq<char> {
    relative_to(p, root) + "\n"@ + tokens + if body.len() > 0 {
        "\n\n"@ + body
    } else {
        Seq::<char>::empty()
    }
}

/// Assembles the text handed to the embedding model. For most files the path is the most reliable
/// signal of what it is, and the leading tokens carry disproportionate weight.
pub fn embed_text(p: &str, root: &str, name_tokens: &str, body: &str) -> (r: String)
    ensures
        r@ == embedded_text(p@, root@, name_tokens@, body@),
{
    let mut s = relative(p, root);
    s.append("\n");
    s.append(name_tokens);
    if !body.is_empty() {
        s.append("\n\n");
        s.append(body);
    }
    proof {
        assert(s@ =~= embedded_text(p@, root@, name_tokens@, body@));
    }
    s
}

/// The digest of a text, as change detection keeps it.
pub open spec fn hash_of(t: Seq<char>) -> Seq<u8> {
    digest::blake3_digest(vstd::utf8::encode_utf8(t)).take(16)
}

/// Sixteen bytes of digest of the text that will be embedded. Change detection compares this, so a
/// file whose time moved but whose content did not is never re-embedded.
pub fn content_hash(t: &str) -> (r: Vec<u8>)
    ensures
        r@ == hash_of(t@),
        r@.len() == 16,
{
    let d = digest::hash_bytes(t.as_bytes());
    let mut out: Vec<u8> = Vec::new();
    let mut i: usize = 0;
    while i < 16
        invariant
            i <= 16,
            d@.len() == 32,
            out@ == d@.take(i as int),
        decreases 16 - i,
    {
        out.push(d[i]);
        i += 1;
        proof {
            assert(out@ =~= d@.take(i as int));
        }
    }
    out
}

// ------------------------------------------------------------------ external tools

/// The arguments for the PDF tool, before the file's path and the `-` for its output.
pub fn pdf_args(pages: u32) -> (r: Vec<String>)
    ensures
        text::views(r@) == seq!["-q"@, "-l"@, text::decimal(pages as nat), "-enc"@, "UTF-8"@],
{
    let mut v: Vec<String> = Vec::new();
    v.push("-q".to_owned());
    v.push("-l".to_owned());
    v.push(text::dec(pages as u64));
    v.push("-enc".to_owned());
    v.push("UTF-8".to_owned());
    proof {
        assert(text::views(v@) =~= seq![
            "-q"@,
            "-l"@,
            text::decimal(pages as nat),
            "-enc"@,
            "UTF-8"@,
        ]);
    }
    v
}

/// The arguments for the media tool, before the file's path: values only, in the order the tags are
/// named. The coordinates go last, as signed decimals, which is where they are looked for.
pub fn media_args(geo: bool) -> (r: Vec<String>)
    ensures
        text::views(r@) == seq![
            "-s"@,
            "-s"@,
            "-s"@,
            "-Title"@,
            "-Description"@,
            "-Keywords"@,
            "-Artist"@,
            "-Album"@,
        ] + (if geo {
            seq!["-n"@, "-GPSLatitude"@, "-GPSLongitude"@]
        } else {
            Seq::<Seq<char>>::empty()
        }),
{
    let mut v: Vec<String> = Vec::new();
    v.push("-s".to_owned());
    v.push("-s".to_owned());
    v.push("-s".to_owned());
    v.push("-Title".to_owned());
    v.push("-Description".to_owned());
    v.push("-Keywords".to_owned());
    v.push("-Artist".to_owned());
    v.push("-Album".to_owned());
    if geo {
        v.push("-n".to_owned());
        v.push("-GPSLatitude".to_owned());
        v.push("-GPSLongitude".to_owned());
    }
    proof {
        assert(text::views(v@) =~= seq![
            "-s"@,
            "-s"@,
            "-s"@,
            "-Title"@,
            "-Description"@,
            "-Keywords"@,
            "-Artist"@,
            "-Album"@,
        ] + (if geo {
            seq!["-n"@, "-GPSLatitude"@, "-GPSLongitude"@]
        } else {
            Seq::<Seq<char>>::empty()
        }));
    }
    v
}

/// `s` without one trailing carriage return.
pub open spec fn without_cr(s: Seq<char>) -> Seq<char> {
    if s.len() > 0 && s.last() == '\r' {
        s.drop_last()
    } else {
        s
    }
}

/// The lines that `s` ends, and the line it ends in the middle of. A line ends with a line feed, or
/// with a carriage return and a line feed.
pub open spec fn line_runs(s: Seq<char>) -> (Seq<Seq<char>>, Seq<char>)
    decreases s.len(),
{
    if s.len() == 0 {
        (seq![], seq![])
    } else {
        let (done, cur) = line_runs(s.drop_last());
        if s.last() == '\n' {
            (done.push(without_cr(cur)), seq![])
        } else {
            (done, cur.push(s.last()))
        }
    }
}

/// The lines of `s`; the last one needs no line ending.
pub open spec fn lines(s: Seq<char>) -> Seq<Seq<char>> {
    let (done, cur) = line_runs(s);
    if cur.len() > 0 {
        done.push(cur)
    } else {
        done
    }
}

/// The lines of `s`.
pub fn lines_of(s: &str) -> (r: Vec<String>)
    ensures
        text::views(r@) == lines(s@),
{
    let cs = text::chars_of(s);
    let mut out: Vec<String> = Vec::new();
    let mut cur: Vec<char> = Vec::new();
    let mut i: usize = 0;
    proof {
        assert(text::views(out@) =~= Seq::<Seq<char>>::empty());
    }
    while i < cs.len()
        invariant
            cs@ == s@,
            i <= cs@.len(),
            line_runs(cs@.take(i as int)) == (text::views(out@), cur@),
        decreases cs@.len() - i,
    {
        let c = cs[i];
        proof {
            assert(cs@.take(i + 1).drop_last() =~= cs@.take(i as int));
            assert(cs@.take(i + 1).last() == c);
        }
        if c == '\n' {
            if cur.len() > 0 && cur[cur.len() - 1] == '\r' {
                let ghost full = cur@;
                cur.pop();
                proof {
                    assert(cur@ =~= without_cr(full));
                }
            }
            let line = text::from_chars(&cur);
            proof {
                text::lemma_views_push(out@, line);
            }
            out.push(line);
            cur = Vec::new();
        } else {
            cur.push(c);
        }
        i += 1;
        proof {
            assert(line_runs(cs@.take(i as int)).1 =~= cur@);
        }
    }
    proof {
        assert(cs@.take(cs@.len() as int) =~= cs@);
    }
    if cur.len() > 0 {
        let line = text::from_chars(&cur);
        proof {
            text::lemma_views_push(out@, line);
        }
        out.push(line);
    }
    out
}

/// The lines that are not blank, in order.
pub open spec fn filled(ls: Seq<Seq<char>>) -> Seq<Seq<char>>
    decreases ls.len(),
{
    if ls.len() == 0 {
        seq![]
    } else if chars::trimmed(ls.last()).len() > 0 {
        filled(ls.drop_last()).push(ls.last())
    } else {
        filled(ls.drop_last())
    }
}

/// What the media tool printed, with its last two lines set apart: they are the coordinates, if
/// they read as such.
pub struct MediaOutput {
    /// The lines before, joined by line feeds.
    pub text: String,
    pub lat: String,
    pub lon: String,
}

/// Sets the last two filled lines of the media tool's output apart. `None` where there are fewer.
pub fn parse_media_output(s: &str) -> (r: Option<MediaOutput>)
    ensures
        ({
            let ls = filled(lines(s@));
            let n = ls.len() as int;
            match r {
                Some(m) => {
                    &&& n >= 2
                    &&& m.text@ == text::joined(ls.take(n - 2), "\n"@)
                    &&& m.lat@ == chars::trimmed(ls[n - 2])
                    &&& m.lon@ == chars::trimmed(ls[n - 1])
                },
                None => n < 2,
            }
        }),
{
    let all = lines_of(s);
    let ghost ls = lines(s@);
    let mut keep: Vec<String> = Vec::new();
    let mut i: usize = 0;
    proof {
        assert(text::views(keep@) =~= filled(ls.take(0)));
    }
    while i < all.len()
        invariant
            ls == text::views(all@),
            ls.len() == all@.len(),
            i <= all@.len(),
            text::views(keep@) == filled(ls.take(i as int)),
        decreases all@.len() - i,
    {
        proof {
            assert(ls.take(i + 1).drop_last() =~= ls.take(i as int));
            assert(ls.take(i + 1).last() == all@[i as int]@);
        }
        if !chars::is_blank(all[i].as_str()) {
            let l = all[i].as_str().to_owned();
            proof {
                text::lemma_views_push(keep@, l);
            }
            keep.push(l);
        }
        i += 1;
    }
    proof {
        assert(ls.take(ls.len() as int) =~= ls);
        assert(text::views(keep@).len() == keep@.len());
    }
    let n: usize = keep.len();
    if n < 2 {
        return None;
    }
    let lat = chars::trim(keep[n - 2].as_str());
    let lon = chars::trim(keep[n - 1].as_str());
    let ghost whole = text::views(keep@);
    proof {
        assert(whole[n - 2] == keep@[n - 2]@);
        assert(whole[n - 1] == keep@[n - 1]@);
    }
    keep.truncate(n - 2);
    proof {
        assert(text::views(keep@) =~= whole.take(n - 2));
    }
    Some(MediaOutput { text: text::join(&keep, "\n"), lat, lon })
}

/// Media text with the place it was taken at. The place goes first: truncation keeps the head, and
/// where a photo was taken is the most durable thing to say about it.
pub fn with_place(place: &Option<String>, t: &str) -> (r: String)
    ensures
        r@ == match place {
            Some(p) => p@ + "\n"@ + t@,
            None => t@,
        },
{
    match place {
        Some(p) => {
            let mut s = p.as_str().to_owned();
            s.append("\n");
            s.append(t);
            s
        },
        None => t.to_owned(),
    }
}

// ------------------------------------------------------------------ laws

/// No word is kept twice, and none of a single byte is kept.
pub proof fn name_words_are_distinct(words: Seq<Seq<char>>)
    ensures
        distinct_words(words).no_duplicates(),
        forall|i: int|
            0 <= i < distinct_words(words).len() ==> vstd::utf8::encode_utf8(
                #[trigger] distinct_words(words)[i],
            ).len() > 1,
    decreases words.len(),
{
    if words.len() > 0 {
        name_words_are_distinct(words.drop_last());
        let before = distinct_words(words.drop_last());
        let all = distinct_words(words);
        assert forall|i: int, j: int| 0 <= i < j < all.len() implies all[i] != all[j] by {
            assert(all[i] == before[i]);
            if j < before.len() {
                assert(all[j] == before[j]);
            }
        }
    }
}

/// Every word longer than one byte is kept.
pub proof fn no_name_word_is_lost(words: Seq<Seq<char>>, i: int)
    requires
        0 <= i < words.len(),
        vstd::utf8::encode_utf8(words[i]).len() > 1,
    ensures
        distinct_words(words).contains(words[i]),
    decreases words.len(),
{
    let before = distinct_words(words.drop_last());
    let all = distinct_words(words);
    if i < words.len() - 1 {
        no_name_word_is_lost(words.drop_last(), i);
        assert(words.drop_last()[i] == words[i]);
        let k = choose|k: int| 0 <= k < before.len() && before[k] == words[i];
        assert(all[k] == words[i]);
    } else {
        if before.contains(words[i]) {
            let k = choose|k: int| 0 <= k < before.len() && before[k] == words[i];
            assert(all[k] == words[i]);
        } else {
            assert(all[before.len() as int] == words[i]);
        }
    }
}

/// The code profile never keeps more of a text than the content profile, and the name-only profile
/// keeps nothing.
pub proof fn profiles_are_ordered_by_budget()
    ensures
        Profile::NameOnly.tokens() == 0,
        Profile::NameOnly.tokens() < Profile::Code.tokens(),
        Profile::Code.tokens() < Profile::Content.tokens(),
{
}

/// A body never exceeds its budget, so a profile without one keeps no body.
pub proof fn a_body_never_exceeds_its_budget(s: Seq<char>, budget: nat)
    ensures
        normalised(s, budget).len() <= budget,
{
    lemma_strip_end_len(chars::first_chars(squeezed(s), budget), ' ');
}

/// The text handed to the model begins with the path, then the words of the name.
pub proof fn the_path_leads(p: Seq<char>, root: Seq<char>, tokens: Seq<char>, body: Seq<char>)
    ensures
        chars::begins_with(
            embedded_text(p, root, tokens, body),
            relative_to(p, root) + "\n"@ + tokens,
        ),
{
    let head = relative_to(p, root) + "\n"@ + tokens;
    assert(embedded_text(p, root, tokens, body).take(head.len() as int) =~= head);
}

/// Whether a text is tidy: no control character, no white space but single spaces between words.
pub open spec fn is_tidy(t: Seq<char>) -> bool {
    &&& is_squeezed(t)
    &&& t.len() > 0 ==> t.last() != ' '
}

/// Whether a text holds no control character, no white space but spaces, none at its start, and no
/// two in a row.
pub open spec fn is_squeezed(t: Seq<char>) -> bool {
    &&& forall|i: int|
        0 <= i < t.len() ==> {
            &&& !chars::control(#[trigger] t[i])
            &&& chars::whitespace(t[i]) ==> t[i] == ' '
        }
    &&& t.len() > 0 ==> t[0] != ' '
    &&& forall|i: int| 0 < i < t.len() && #[trigger] t[i] == ' ' ==> t[i - 1] != ' '
}

proof fn lemma_squeezed_is_squeezed(s: Seq<char>)
    ensures
        is_squeezed(squeezed(s)),
    decreases s.len(),
{
    if s.len() > 0 {
        let out = squeezed(s.drop_last());
        let all = squeezed(s);
        lemma_squeezed_is_squeezed(s.drop_last());
        assert forall|i: int| 0 <= i < all.len() implies !chars::control(#[trigger] all[i]) && (
        chars::whitespace(all[i]) ==> all[i] == ' ') by {
            if i < out.len() {
                assert(all[i] == out[i]);
            }
        }
        assert forall|i: int| 0 < i < all.len() && #[trigger] all[i] == ' ' implies all[i - 1]
            != ' ' by {
            assert(all[i - 1] == out[i - 1]);
            if i < out.len() {
                assert(all[i] == out[i]);
            } else {
                assert(out.last() == out[i - 1]);
            }
        }
        if all.len() > 0 && out.len() > 0 {
            assert(all[0] == out[0]);
        }
    }
}

proof fn lemma_squeezed_prefix(t: Seq<char>, n: int)
    requires
        is_squeezed(t),
        0 <= n <= t.len(),
    ensures
        is_squeezed(t.take(n)),
{
    let p = t.take(n);
    assert forall|i: int| 0 <= i < p.len() implies !chars::control(#[trigger] p[i]) && (
    chars::whitespace(p[i]) ==> p[i] == ' ') by {
        assert(p[i] == t[i]);
    }
    assert forall|i: int| 0 < i < p.len() && #[trigger] p[i] == ' ' implies p[i - 1] != ' ' by {
        assert(t[i] == ' ');
    }
}

/// Squeezing a second time changes nothing.
proof fn lemma_squeezed_stays(t: Seq<char>)
    requires
        is_squeezed(t),
    ensures
        squeezed(t) == t,
    decreases t.len(),
{
    if t.len() > 0 {
        let init = t.drop_last();
        assert(init =~= t.take(t.len() - 1));
        lemma_squeezed_prefix(t, t.len() - 1);
        lemma_squeezed_stays(init);
        let c = t.last();
        assert(t[t.len() - 1] == c);
        assert(init.push(c) =~= t);
        if t.len() > 1 {
            assert(t[t.len() - 2] == init.last());
        }
    } else {
        assert(squeezed(t) =~= t);
    }
}

/// What stripping leaves is the part before the last characters that are all `c`.
proof fn lemma_strip_end(s: Seq<char>, c: char) -> (k: int)
    ensures
        0 <= k <= s.len(),
        chars::strip_end(s, c) == s.take(k),
        k > 0 ==> s[k - 1] != c,
        forall|i: int| k <= i < s.len() ==> #[trigger] s[i] == c,
    decreases s.len(),
{
    if s.len() > 0 && s.last() == c {
        let init = s.drop_last();
        let k = lemma_strip_end(init, c);
        assert(init.take(k) =~= s.take(k));
        assert forall|i: int| k <= i < s.len() implies #[trigger] s[i] == c by {
            if i < init.len() {
                assert(init[i] == s[i]);
            }
        }
        k
    } else {
        assert(s.take(s.len() as int) =~= s);
        s.len() as int
    }
}

/// A normalised text is tidy: it holds no control character, no white space at either end, and
/// within only single spaces.
pub proof fn a_normalised_text_is_tidy(s: Seq<char>, budget: nat)
    ensures
        is_tidy(normalised(s, budget)),
{
    let head = chars::first_chars(squeezed(s), budget);
    lemma_squeezed_is_squeezed(s);
    lemma_squeezed_prefix(squeezed(s), head.len() as int);
    assert(head =~= squeezed(s).take(head.len() as int));
    let k = lemma_strip_end(head, ' ');
    lemma_squeezed_prefix(head, k);
}

/// Normalising a second time changes nothing.
pub proof fn normalising_again_changes_nothing(s: Seq<char>, budget: nat)
    ensures
        normalised(normalised(s, budget), budget) == normalised(s, budget),
{
    let n = normalised(s, budget);
    a_normalised_text_is_tidy(s, budget);
    a_body_never_exceeds_its_budget(s, budget);
    lemma_squeezed_stays(n);
    assert(chars::first_chars(n, budget) =~= n);
    let k = lemma_strip_end(n, ' ');
    if k < n.len() {
        assert(n[n.len() - 1] == ' ');
    }
    assert(n.take(k) =~= n);
}

/// A smaller budget keeps the beginning of what a larger one keeps.
pub proof fn a_smaller_budget_gives_a_prefix(s: Seq<char>, small: nat, large: nat)
    requires
        small <= large,
    ensures
        chars::begins_with(normalised(s, large), normalised(s, small)),
{
    let q = squeezed(s);
    let a = chars::first_chars(q, small);
    let b = chars::first_chars(q, large);
    let j = lemma_strip_end(a, ' ');
    let k = lemma_strip_end(b, ' ');
    assert(a =~= b.take(a.len() as int));
    if k < j {
        assert(b[j - 1] == ' ');
        assert(a[j - 1] == b[j - 1]);
    }
    assert(b.take(k).take(j) =~= a.take(j));
}

/// The characters that are neither white space nor control characters, in order.
pub open spec fn visible(s: Seq<char>) -> Seq<char>
    decreases s.len(),
{
    if s.len() == 0 {
        seq![]
    } else {
        let before = visible(s.drop_last());
        if chars::whitespace(s.last()) || chars::control(s.last()) {
            before
        } else {
            before.push(s.last())
        }
    }
}

proof fn lemma_visible_squeezed(s: Seq<char>)
    ensures
        visible(squeezed(s)) == visible(s),
    decreases s.len(),
{
    if s.len() > 0 {
        let out = squeezed(s.drop_last());
        lemma_visible_squeezed(s.drop_last());
        let c = s.last();
        assert(out.push(c).drop_last() =~= out);
        assert(out.push(' ').drop_last() =~= out);
    } else {
        assert(squeezed(s) =~= s);
    }
}

proof fn lemma_visible_prefix(s: Seq<char>, n: int)
    requires
        0 <= n <= s.len(),
    ensures
        visible(s.take(n)).len() <= visible(s).len(),
        visible(s.take(n)) == visible(s).take(visible(s.take(n)).len() as int),
    decreases s.len(),
{
    if n == s.len() {
        assert(s.take(n) =~= s);
        assert(visible(s).take(visible(s).len() as int) =~= visible(s));
    } else {
        let init = s.drop_last();
        lemma_visible_prefix(init, n);
        assert(init.take(n) =~= s.take(n));
        let k = visible(s.take(n)).len() as int;
        assert(visible(s).take(k) =~= visible(init).take(k));
    }
}

/// Normalising moves and invents nothing: what is neither space nor control stays as it was, in
/// order, up to where the budget ends.
pub proof fn normalising_keeps_the_characters(s: Seq<char>, budget: nat)
    ensures
        chars::begins_with(visible(s), visible(normalised(s, budget))),
{
    let q = squeezed(s);
    let head = chars::first_chars(q, budget);
    let k = lemma_strip_end(head, ' ');
    assert(normalised(s, budget) =~= q.take(k));
    lemma_visible_squeezed(s);
    lemma_visible_prefix(q, k);
}

/// Whether a name word may end between these two characters of a name: after a lower-case letter,
/// before a capital.
pub open spec fn humps(a: char, b: char) -> bool {
    chars::lowercase(a) && chars::uppercase(b)
}

/// The name words are what the letters and digits of a name spell in lower case: nothing else is
/// part of a word, and nothing of it is lost, moved or repeated.
pub proof fn name_words_spell_the_letters_and_digits(s: Seq<char>, i: int, j: int)
    ensures
        text::joined(name_words(s), Seq::<char>::empty()) == s.filter(
            |c: char| chars::alphanumeric(c),
        ).map_values(|c: char| chars::lower_ascii_char(c)),
        0 <= i < name_words(s).len() && 0 <= j < name_words(s)[i].len() ==> chars::alphanumeric(
            name_words(s)[i][j],
        ),
        0 <= i < name_words(s).len() ==> name_words(s)[i].len() > 0,
{
    lemma_name_runs_spell(s);
    lemma_name_runs_chars(s);
    let (done, cur, low) = name_runs(s);
    let none = Seq::<char>::empty();
    if cur.len() > 0 {
        lemma_joined_push(done, cur);
        if 0 <= i < name_words(s).len() {
            if i < done.len() {
                assert(name_words(s)[i] == done[i]);
            } else {
                assert(name_words(s)[i] == cur);
            }
        }
    } else {
        assert(text::joined(done, none) + cur =~= text::joined(done, none));
    }
}

proof fn lemma_joined_push(words: Seq<Seq<char>>, w: Seq<char>)
    ensures
        text::joined(words.push(w), Seq::<char>::empty()) == text::joined(
            words,
            Seq::<char>::empty(),
        ) + w,
{
    let none = Seq::<char>::empty();
    assert(words.push(w).drop_last() =~= words);
    if words.len() == 0 {
        assert(text::joined(words, none) + w =~= w);
    } else {
        assert(text::joined(words, none) + none + w =~= text::joined(words, none) + w);
    }
}

proof fn lemma_name_runs_spell(s: Seq<char>)
    ensures
        text::joined(name_runs(s).0, Seq::<char>::empty()) + name_runs(s).1 == s.filter(
            |c: char| chars::alphanumeric(c),
        ).map_values(|c: char| chars::lower_ascii_char(c)),
    decreases s.len(),
{
    reveal(Seq::filter);
    let p = |c: char| chars::alphanumeric(c);
    let f = |c: char| chars::lower_ascii_char(c);
    let none = Seq::<char>::empty();
    if s.len() > 0 {
        lemma_name_runs_spell(s.drop_last());
        let (done, cur, low) = name_runs(s.drop_last());
        let rest = s.drop_last().filter(p);
        let c = s.last();
        if p(c) {
            assert(rest.push(c).map_values(f) =~= rest.map_values(f).push(f(c)));
            if low && chars::uppercase(c) && cur.len() > 0 {
                lemma_joined_push(done, cur);
                assert(text::joined(done, none) + cur + seq![f(c)] =~= (text::joined(done, none)
                    + cur).push(f(c)));
            } else {
                assert(text::joined(done, none) + cur.push(f(c)) =~= (text::joined(done, none)
                    + cur).push(f(c)));
            }
        } else if cur.len() > 0 {
            lemma_joined_push(done, cur);
            assert(text::joined(done, none) + cur + none =~= text::joined(done, none) + cur);
        }
    } else {
        assert(text::joined(name_runs(s).0, none) + name_runs(s).1 =~= s.filter(p).map_values(f));
    }
}

proof fn lemma_name_runs_chars(s: Seq<char>)
    ensures
        forall|j: int|
            0 <= j < name_runs(s).1.len() ==> chars::alphanumeric(#[trigger] name_runs(s).1[j]),
        forall|i: int, j: int|
            0 <= i < name_runs(s).0.len() && 0 <= j < name_runs(s).0[i].len()
                ==> chars::alphanumeric(#[trigger] name_runs(s).0[i][j]),
        forall|i: int| 0 <= i < name_runs(s).0.len() ==> (#[trigger] name_runs(s).0[i]).len() > 0,
    decreases s.len(),
{
    if s.len() > 0 {
        lemma_name_runs_chars(s.drop_last());
        let (d0, c0, l0) = name_runs(s.drop_last());
        let (d1, c1, l1) = name_runs(s);
        assert forall|j: int| 0 <= j < c1.len() implies chars::alphanumeric(#[trigger] c1[j]) by {
            if j < c0.len() && c1.len() > c0.len() {
                assert(chars::alphanumeric(c0[j]));
            }
        }
        assert forall|i: int, j: int|
            0 <= i < d1.len() && 0 <= j < d1[i].len() implies chars::alphanumeric(
            #[trigger] d1[i][j],
        ) by {
            if i < d0.len() {
                assert(d1[i] == d0[i]);
                assert(chars::alphanumeric(d0[i][j]));
            } else {
                assert(d1[i] == c0);
                assert(chars::alphanumeric(c0[j]));
            }
        }
    }
}

/// What is neither letter nor digit parts the name words: those of a name are those before it, then
/// those after it.
pub proof fn a_separator_parts_the_name_words(a: Seq<char>, c: char, b: Seq<char>)
    requires
        !chars::alphanumeric(c),
    ensures
        name_words(a.push(c) + b) == name_words(a) + name_words(b),
        name_words(Seq::<char>::empty()) == Seq::<Seq<char>>::empty(),
{
    assert(a.push(c).drop_last() =~= a);
    let none = Seq::<char>::empty();
    lemma_name_runs_after(a.push(c), none, name_words(a), b);
    assert(none + b =~= b);
    assert(name_words(a.push(c) + b) =~= name_words(a) + name_words(b));
}

/// A capital after a lower-case letter begins a word of its own: the words of a name are those up
/// to the letter, then those from the capital on.
pub proof fn a_hump_parts_the_name_words(a: Seq<char>, b: Seq<char>)
    requires
        a.len() > 0,
        b.len() > 0,
        chars::alphanumeric(a.last()),
        chars::alphanumeric(b[0]),
        humps(a.last(), b[0]),
    ensures
        name_words(a + b) == name_words(a) + name_words(b),
{
    let first = seq![b[0]];
    let rest = b.drop_first();
    assert(first.drop_last() =~= Seq::<char>::empty());
    assert((a + first).drop_last() =~= a);
    assert((a + first).last() == b[0]);
    assert(name_runs(a).1.len() > 0);
    assert(name_runs(first.drop_last()) == (
        Seq::<Seq<char>>::empty(),
        Seq::<char>::empty(),
        false,
    ));
    assert(name_runs(first).0 =~= Seq::<Seq<char>>::empty());
    assert(name_runs(first).1 =~= seq![chars::lower_ascii_char(b[0])]);
    lemma_name_runs_after(a + first, first, name_words(a), rest);
    assert(a + first + rest =~= a + b);
    assert(first + rest =~= b);
    assert(name_words(a + b) =~= name_words(a) + name_words(b));
}

/// Reading on from two places with the same word begun gives the same words from there.
proof fn lemma_name_runs_after(x: Seq<char>, y: Seq<char>, before: Seq<Seq<char>>, b: Seq<char>)
    requires
        name_runs(x) == (before + name_runs(y).0, name_runs(y).1, name_runs(y).2),
    ensures
        name_runs(x + b) == (before + name_runs(y + b).0, name_runs(y + b).1, name_runs(y + b).2),
    decreases b.len(),
{
    if b.len() == 0 {
        assert(x + b =~= x);
        assert(y + b =~= y);
    } else {
        lemma_name_runs_after(x, y, before, b.drop_last());
        assert((x + b).drop_last() =~= x + b.drop_last());
        assert((y + b).drop_last() =~= y + b.drop_last());
        let (done, cur, low) = name_runs(y + b.drop_last());
        assert((before + done).push(cur) =~= before + done.push(cur));
    }
}

/// Letters and digits without such a capital are one word.
pub proof fn letters_without_a_hump_are_one_word(s: Seq<char>)
    requires
        s.len() > 0,
        forall|i: int| 0 <= i < s.len() ==> chars::alphanumeric(#[trigger] s[i]),
        forall|i: int| 0 < i < s.len() ==> !humps(s[i - 1], #[trigger] s[i]),
    ensures
        name_words(s) == seq![chars::ascii_lower(s)],
{
    lemma_one_name_run(s);
    assert(name_words(s) =~= seq![chars::ascii_lower(s)]);
}

proof fn lemma_one_name_run(s: Seq<char>)
    requires
        forall|i: int| 0 <= i < s.len() ==> chars::alphanumeric(#[trigger] s[i]),
        forall|i: int| 0 < i < s.len() ==> !humps(s[i - 1], #[trigger] s[i]),
    ensures
        name_runs(s) == (
            Seq::<Seq<char>>::empty(),
            chars::ascii_lower(s),
            s.len() > 0 && chars::lowercase(s.last()),
        ),
    decreases s.len(),
{
    if s.len() > 0 {
        let init = s.drop_last();
        assert forall|i: int| 0 < i < init.len() implies !humps(init[i - 1], #[trigger] init[i]) by {
            assert(!humps(s[i - 1], s[i]));
        }
        lemma_one_name_run(init);
        if init.len() > 0 {
            assert(!humps(s[s.len() - 2], s[s.len() - 1]));
        }
        assert(chars::ascii_lower(init).push(chars::lower_ascii_char(s.last()))
            =~= chars::ascii_lower(s));
        assert(chars::alphanumeric(s[s.len() - 1]));
    } else {
        assert(chars::ascii_lower(s) =~= Seq::<char>::empty());
    }
}

/// The words of a path are those of its components, one component after the other.
pub proof fn the_words_of_a_path_are_those_of_its_parts(
    a: Seq<Seq<char>>,
    b: Seq<Seq<char>>,
    p: Seq<char>,
)
    ensures
        words_of_parts(Seq::<Seq<char>>::empty()) == Seq::<Seq<char>>::empty(),
        words_of_parts(seq![p]) == name_words(p),
        words_of_parts(a + b) == words_of_parts(a) + words_of_parts(b),
    decreases b.len(),
{
    let one = seq![p];
    assert(one.drop_last() =~= Seq::<Seq<char>>::empty());
    assert(words_of_parts(one.drop_last()) =~= Seq::<Seq<char>>::empty());
    assert(words_of_parts(one) =~= name_words(p));
    if b.len() == 0 {
        assert(a + b =~= a);
        assert(words_of_parts(a) + words_of_parts(b) =~= words_of_parts(a));
    } else {
        the_words_of_a_path_are_those_of_its_parts(a, b.drop_last(), p);
        assert((a + b).drop_last() =~= a + b.drop_last());
        assert(words_of_parts(a) + words_of_parts(b.drop_last()) + name_words(b.last())
            =~= words_of_parts(a) + words_of_parts(b));
    }
}

/// The words that are kept stand in the order in which they first occur: what is kept of the first
/// words begins what is kept of all. And none is invented.
pub proof fn kept_words_keep_their_order(a: Seq<Seq<char>>, b: Seq<Seq<char>>, i: int)
    ensures
        distinct_words(a).len() <= distinct_words(a + b).len(),
        distinct_words(a) == distinct_words(a + b).take(distinct_words(a).len() as int),
        0 <= i < distinct_words(a).len() ==> a.contains(distinct_words(a)[i]),
    decreases a.len() + b.len(),
{
    if b.len() == 0 {
        assert(a + b =~= a);
        assert(distinct_words(a).take(distinct_words(a).len() as int) =~= distinct_words(a));
    } else {
        kept_words_keep_their_order(a, b.drop_last(), i);
        assert((a + b).drop_last() =~= a + b.drop_last());
        let n = distinct_words(a).len() as int;
        assert(distinct_words(a + b).take(n) =~= distinct_words(a + b.drop_last()).take(n));
    }
    if 0 <= i < distinct_words(a).len() {
        let init = a.drop_last();
        let before = distinct_words(init);
        if i < before.len() {
            kept_words_keep_their_order(init, Seq::<Seq<char>>::empty(), i);
            let w = distinct_words(a)[i];
            assert(w == before[i]);
            let k = choose|k: int| 0 <= k < init.len() && init[k] == w;
            assert(a[k] == w);
        } else {
            assert(a[a.len() - 1] == distinct_words(a)[i]);
        }
    }
}

/// The text handed to the model, part by part: the path, a line feed, the name words, and, where
/// there is a body, a blank line and all of it.
pub proof fn the_model_reads_path_words_and_body(
    p: Seq<char>,
    root: Seq<char>,
    tokens: Seq<char>,
    body: Seq<char>,
)
    ensures
        ({
            let t = embedded_text(p, root, tokens, body);
            let r = relative_to(p, root);
            let head = r.len() as int + 1 + tokens.len();
            &&& t.take(r.len() as int) == r
            &&& t[r.len() as int] == '\n'
            &&& t.subrange(r.len() as int + 1, head) == tokens
            &&& body.len() == 0 ==> t.len() == head
            &&& body.len() > 0 ==> {
                &&& t.len() == head + 2 + body.len()
                &&& t[head] == '\n'
                &&& t[head + 1] == '\n'
                &&& t.skip(head + 2) == body
            }
        }),
{
    reveal_strlit("\n");
    reveal_strlit("\n\n");
    let t = embedded_text(p, root, tokens, body);
    let r = relative_to(p, root);
    let head = r.len() as int + 1 + tokens.len();
    assert(t.take(r.len() as int) =~= r);
    assert(t.subrange(r.len() as int + 1, head) =~= tokens);
    if body.len() > 0 {
        assert(t.skip(head + 2) =~= body);
    }
}

/// A line feed ends a line, with the carriage return before it if there is one; what follows are
/// the next lines. A last line needs none, and an empty text has no line.
pub proof fn line_feeds_part_the_lines(a: Seq<char>, b: Seq<char>)
    requires
        !a.contains('\n'),
    ensures
        lines(Seq::<char>::empty()) == Seq::<Seq<char>>::empty(),
        a.len() > 0 ==> lines(a) == seq![a],
        (a.len() == 0 || a.last() != '\r') ==> lines(a.push('\n') + b) == seq![a] + lines(b),
        lines(a.push('\r').push('\n') + b) == seq![a] + lines(b),
{
    lemma_no_line_feed(a);
    assert(lines(Seq::<char>::empty()) =~= Seq::<Seq<char>>::empty());
    if a.len() > 0 {
        assert(lines(a) =~= seq![a]);
    }
    let none = Seq::<char>::empty();
    let x = a.push('\n');
    assert(x.drop_last() =~= a);
    let y = a.push('\r').push('\n');
    assert(y.drop_last() =~= a.push('\r'));
    assert(a.push('\r').drop_last() =~= a);
    assert(line_runs(a.push('\r')).1 =~= a.push('\r'));
    assert(without_cr(a.push('\r')) =~= a);
    assert(line_runs(y).0 =~= seq![a]);
    lemma_line_runs_after(y, seq![a], b);
    assert(lines(y + b) =~= seq![a] + lines(b));
    if a.len() == 0 || a.last() != '\r' {
        assert(line_runs(x).0 =~= seq![a]);
        lemma_line_runs_after(x, seq![a], b);
        assert(lines(x + b) =~= seq![a] + lines(b));
    }
}

proof fn lemma_no_line_feed(a: Seq<char>)
    requires
        !a.contains('\n'),
    ensures
        line_runs(a) == (Seq::<Seq<char>>::empty(), a),
    decreases a.len(),
{
    if a.len() > 0 {
        let init = a.drop_last();
        assert forall|i: int| 0 <= i < init.len() implies init[i] != '\n' by {
            assert(a.contains(a[i]));
        }
        assert(a.contains(a.last()));
        lemma_no_line_feed(init);
        assert(init.push(a.last()) =~= a);
    } else {
        assert(line_runs(a).1 =~= a);
    }
}

proof fn lemma_line_runs_after(x: Seq<char>, before: Seq<Seq<char>>, b: Seq<char>)
    requires
        line_runs(x) == (before, Seq::<char>::empty()),
    ensures
        line_runs(x + b) == (before + line_runs(b).0, line_runs(b).1),
    decreases b.len(),
{
    if b.len() == 0 {
        assert(x + b =~= x);
        assert(before + line_runs(b).0 =~= before);
    } else {
        lemma_line_runs_after(x, before, b.drop_last());
        assert((x + b).drop_last() =~= x + b.drop_last());
        let (done, cur) = line_runs(b.drop_last());
        assert((before + done).push(without_cr(cur)) =~= before + done.push(without_cr(cur)));
    }
}

/// The lines that count are those with something on them, in order.
pub proof fn only_blank_lines_are_left_out(ls: Seq<Seq<char>>)
    ensures
        filled(ls) == ls.filter(|l: Seq<char>| !chars::all_whitespace(l)),
    decreases ls.len(),
{
    reveal(Seq::filter);
    if ls.len() > 0 {
        only_blank_lines_are_left_out(ls.drop_last());
        lemma_blank(ls.last());
    }
}

/// Nothing is left of a text exactly where it is all white space.
proof fn lemma_blank(l: Seq<char>)
    ensures
        chars::trimmed(l).len() == 0 <==> chars::all_whitespace(l),
{
    chars::trimming_takes_only_white_space(l);
    let t = chars::trimmed(l);
    let (a, b) = choose|a: int, b: int|
        0 <= a <= b <= l.len() && t == #[trigger] l.subrange(a, b) && chars::all_whitespace(
            l.take(a),
        ) && chars::all_whitespace(l.skip(b));
    if t.len() == 0 {
        assert forall|i: int| 0 <= i < l.len() implies chars::whitespace(#[trigger] l[i]) by {
            if i < a {
                assert(l.take(a)[i] == l[i]);
            } else {
                assert(l.skip(b)[i - b] == l[i]);
            }
        }
    } else {
        assert(t[0] == l[a]);
    }
}

/// A head is taken for binary exactly where its first 8192 bytes hold a zero, or at least eleven in
/// a hundred of them are control bytes other than tab, line feed and their like.
pub proof fn binaries_are_told_by_their_bytes(buf: Seq<u8>)
    ensures
        ({
            let head = if buf.len() < 8192 {
                buf
            } else {
                buf.take(8192)
            };
            let weird = head.filter(|b: u8| b < 9 || 13 < b < 32).len();
            binary(buf) <==> head.contains(0u8) || (head.len() > 0 && 100 * weird >= 11
                * head.len())
        }),
{
    let head = if buf.len() < 8192 {
        buf
    } else {
        buf.take(8192)
    };
    assert(sniffed(buf) =~= head);
    lemma_weird_bytes(head);
    if head.len() > 0 {
        let w = weird_bytes(head);
        let n = head.len();
        assert(w * 100 / n > 10 <==> 100 * w >= 11 * n) by (nonlinear_arith)
            requires
                n > 0,
        ;
    }
}

proof fn lemma_weird_bytes(b: Seq<u8>)
    ensures
        weird_bytes(b) == b.filter(|b: u8| b < 9 || 13 < b < 32).len(),
    decreases b.len(),
{
    reveal(Seq::filter);
    if b.len() > 0 {
        lemma_weird_bytes(b.drop_last());
    }
}

/// White space, of whatever kind and length, becomes one space between what is kept before it and
/// what is kept after it, and nothing where nothing is kept before it.
pub proof fn white_space_becomes_one_space(a: Seq<char>, w: char, b: Seq<char>)
    requires
        chars::whitespace(w),
    ensures
        ({
            let before = chars::strip_end(squeezed(a), ' ');
            squeezed(a.push(w) + b) == (if before.len() == 0 {
                squeezed(b)
            } else {
                before.push(' ') + squeezed(b)
            })
        }),
{
    let x = a.push(w);
    let q = squeezed(a);
    assert(x.drop_last() =~= a);
    lemma_squeezed_is_squeezed(a);
    let k = lemma_strip_end(q, ' ');
    if k < q.len() {
        // No two spaces stand side by side, so there is one at most.
        if k + 1 < q.len() {
            assert(q[k] == ' ' && q[k + 1] == ' ');
        }
        assert(q[k] == ' ');
        assert(q =~= q.take(k).push(' '));
    } else {
        assert(q.take(k) =~= q);
    }
    lemma_squeezed_after(x, b);
    assert(squeezed(x) + squeezed(b) =~= if chars::strip_end(q, ' ').len() == 0 {
        squeezed(b)
    } else {
        chars::strip_end(q, ' ').push(' ') + squeezed(b)
    });
}

/// After a space, or at the start, squeezing goes on afresh.
proof fn lemma_squeezed_after(x: Seq<char>, b: Seq<char>)
    requires
        squeezed(x).len() == 0 || squeezed(x).last() == ' ',
    ensures
        squeezed(x + b) == squeezed(x) + squeezed(b),
    decreases b.len(),
{
    if b.len() == 0 {
        assert(x + b =~= x);
        assert(squeezed(x) + squeezed(b) =~= squeezed(x));
    } else {
        lemma_squeezed_after(x, b.drop_last());
        assert((x + b).drop_last() =~= x + b.drop_last());
        let out = squeezed(b.drop_last());
        let c = b.last();
        if out.len() > 0 {
            assert((squeezed(x) + out).last() == out.last());
        }
        assert((squeezed(x) + out).push(c) =~= squeezed(x) + out.push(c));
        assert((squeezed(x) + out).push(' ') =~= squeezed(x) + out.push(' '));
    }
}

/// Without white space all is kept but the control characters.
pub proof fn only_control_characters_are_dropped(s: Seq<char>)
    requires
        forall|i: int| 0 <= i < s.len() ==> !chars::whitespace(#[trigger] s[i]),
    ensures
        squeezed(s) == s.filter(|c: char| !chars::control(c)),
    decreases s.len(),
{
    reveal(Seq::filter);
    if s.len() > 0 {
        let init = s.drop_last();
        assert forall|i: int| 0 <= i < init.len() implies !chars::whitespace(#[trigger] init[i]) by {
            assert(!chars::whitespace(s[i]));
        }
        only_control_characters_are_dropped(init);
        assert(!chars::whitespace(s[s.len() - 1]));
    } else {
        assert(squeezed(s) =~= s.filter(|c: char| !chars::control(c)));
    }
}

/// The budget is used up: what is kept of a text is all of it, or falls short of the budget by no
/// more than the space it would have ended in.
pub proof fn the_budget_is_used_up(s: Seq<char>, budget: nat)
    ensures
        ({
            let n = normalised(s, budget);
            let all = chars::strip_end(squeezed(s), ' ');
            n == all || (n.len() + 1 >= budget && n == all.take(n.len() as int))
        }),
{
    let q = squeezed(s);
    let head = chars::first_chars(q, budget);
    lemma_squeezed_is_squeezed(s);
    let k = lemma_strip_end(head, ' ');
    let j = lemma_strip_end(q, ' ');
    if budget < q.len() {
        assert(head =~= q.take(budget as int));
        if k + 1 < budget {
            assert(head[k] == ' ' && head[k + 1] == ' ');
            assert(q[k] == ' ' && q[k + 1] == ' ');
        }
        if j < k {
            assert(q[k - 1] == ' ');
            assert(head[k - 1] == q[k - 1]);
        }
        assert(head.take(k) =~= q.take(j).take(k));
    } else {
        assert(head =~= q);
    }
}

/// Which extractor a file gets goes by its extension in any ASCII case, and a profile without a
/// body reads nothing.
pub proof fn extractors_go_by_extension(
    p: Seq<char>,
    profile: Profile,
    cfg: ExtractConfig,
    caps: Capabilities,
)
    ensures
        ({
            let e = lower_extension(p);
            let x = extractor_for(p, profile, cfg, caps);
            let office = seq!["docx"@, "odt"@, "pptx"@, "odp"@, "xlsx"@, "ods"@].contains(e);
            let media = seq![
                "jpg"@,
                "jpeg"@,
                "png"@,
                "gif"@,
                "webp"@,
                "tiff"@,
                "tif"@,
                "bmp"@,
                "heic"@,
                "avif"@,
                "raw"@,
                "cr2"@,
                "nef"@,
                "mp4"@,
                "mkv"@,
                "avi"@,
                "mov"@,
                "webm"@,
                "flv"@,
                "wmv"@,
                "mp3"@,
                "flac"@,
                "wav"@,
                "ogg"@,
                "opus"@,
                "m4a"@,
                "aac"@,
            ].contains(e);
            &&& profile == Profile::NameOnly ==> x == Extractor::Nothing
            &&& profile != Profile::NameOnly ==> {
                &&& e == "pdf"@ ==> x == if caps.pdftotext {
                    Extractor::Pdf
                } else {
                    Extractor::Nothing
                }
                &&& office <==> x == Extractor::Office
                &&& media ==> x == if cfg.media {
                    Extractor::Media
                } else {
                    Extractor::Nothing
                }
                &&& !office && !media && e != "pdf"@ <==> x == Extractor::Head
            }
        }),
{
    let e = lower_extension(p);
    let office = seq!["docx"@, "odt"@, "pptx"@, "odp"@, "xlsx"@, "ods"@];
    assert(office[0] == "docx"@ && office[1] == "odt"@ && office[2] == "pptx"@ && office[3]
        == "odp"@ && office[4] == "xlsx"@ && office[5] == "ods"@);
    let media = seq![
        "jpg"@,
        "jpeg"@,
        "png"@,
        "gif"@,
        "webp"@,
        "tiff"@,
        "tif"@,
        "bmp"@,
        "heic"@,
        "avif"@,
        "raw"@,
        "cr2"@,
        "nef"@,
        "mp4"@,
        "mkv"@,
        "avi"@,
        "mov"@,
        "webm"@,
        "flv"@,
        "wmv"@,
        "mp3"@,
        "flac"@,
        "wav"@,
        "ogg"@,
        "opus"@,
        "m4a"@,
        "aac"@,
    ];
    assert(media[0] == "jpg"@ && media[1] == "jpeg"@ && media[2] == "png"@ && media[3] == "gif"@
        && media[4] == "webp"@ && media[5] == "tiff"@ && media[6] == "tif"@ && media[7] == "bmp"@
        && media[8] == "heic"@ && media[9] == "avif"@ && media[10] == "raw"@ && media[11]
        == "cr2"@ && media[12] == "nef"@ && media[13] == "mp4"@ && media[14] == "mkv"@
        && media[15] == "avi"@ && media[16] == "mov"@ && media[17] == "webm"@ && media[18]
        == "flv"@ && media[19] == "wmv"@ && media[20] == "mp3"@ && media[21] == "flac"@
        && media[22] == "wav"@ && media[23] == "ogg"@ && media[24] == "opus"@ && media[25]
        == "m4a"@ && media[26] == "aac"@);
    lemma_extensions_apart(e);
}

/// No extension is of two kinds.
proof fn lemma_extensions_apart(e: Seq<char>)
    ensures
        e == "pdf"@ ==> !office_extension(e) && !media_extension(e),
        office_extension(e) ==> !media_extension(e),
{
    reveal_strlit("pdf");
    reveal_strlit("docx");
    reveal_strlit("odt");
    reveal_strlit("pptx");
    reveal_strlit("odp");
    reveal_strlit("xlsx");
    reveal_strlit("ods");
    reveal_strlit("jpg");
    reveal_strlit("jpeg");
    reveal_strlit("png");
    reveal_strlit("gif");
    reveal_strlit("webp");
    reveal_strlit("tiff");
    reveal_strlit("tif");
    reveal_strlit("bmp");
    reveal_strlit("heic");
    reveal_strlit("avif");
    reveal_strlit("raw");
    reveal_strlit("cr2");
    reveal_strlit("nef");
    reveal_strlit("mp4");
    reveal_strlit("mkv");
    reveal_strlit("avi");
    reveal_strlit("mov");
    reveal_strlit("webm");
    reveal_strlit("flv");
    reveal_strlit("wmv");
    reveal_strlit("mp3");
    reveal_strlit("flac");
    reveal_strlit("wav");
    reveal_strlit("ogg");
    reveal_strlit("opus");
    reveal_strlit("m4a");
    reveal_strlit("aac");
    if office_extension(e) {
        assert(e[0] == 'd' || e[0] == 'o' || e[0] == 'p' || e[0] == 'x');
        assert(e[0] == 'o' ==> e[1] == 'd');
        assert(e[0] == 'p' ==> e[1] == 'p');
    }
    if media_extension(e) {
        assert(e[0] != 'd' && e[0] != 'x');
        assert(e[0] == 'o' ==> e[1] != 'd');
        assert(e[0] == 'p' ==> e[1] == 'n');
    }
}

/// What an extractor yielded is kept under its own kind; what yields nothing is known by its name,
/// and so is all that a profile without a budget reads.
pub proof fn bodies_are_kept_as_what_they_are(e: Extractor, raw: Option<String>)
    ensures
        kind_of(Extractor::Pdf) == Kind::Pdf,
        kind_of(Extractor::Office) == Kind::Office,
        kind_of(Extractor::Media) == Kind::Media,
        kind_of(Extractor::Head) == Kind::Text,
        kind_of(Extractor::Nothing) == Kind::NameOnly,
        yielded(Extractor::Nothing, raw) is None,
        yielded(e, None) is None,
        e != Extractor::Nothing && raw is Some ==> yielded(e, raw) == Some((raw->0)@),
        body_of(None, 256) == Seq::<char>::empty(),
        Profile::Content.tokens() == 256,
        Profile::Code.tokens() == 64,
        Profile::NameOnly.tokens() == 0,
{
}

/// Change detection keeps the first sixteen bytes of the digest.
pub proof fn texts_are_told_apart_by_their_digest(t: Seq<char>)
    requires
        digest::blake3_digest(vstd::utf8::encode_utf8(t)).len() >= 16,
    ensures
        hash_of(t).len() == 16,
        hash_of(t) == digest::blake3_digest(vstd::utf8::encode_utf8(t)).subrange(0, 16),
{
    assert(hash_of(t) =~= digest::blake3_digest(vstd::utf8::encode_utf8(t)).subrange(0, 16));
}

/// No more is read of a file than the budget can use, eight bytes to a character, but at least four
/// kilobytes; and never more than the configured limit or a megabyte.
pub proof fn reading_stays_within_the_limits(cfg: Config, budget_chars: usize, r: usize)
    requires
        call_ensures(read_size, (&cfg, budget_chars), r),
        cfg.extract.max_read_kb * 1024 <= usize::MAX,
        cfg.extract.max_read_kb * 1024 <= u64::MAX,
    ensures
        r <= 1_048_576,
        r <= cfg.extract.max_read_kb * 1024,
        cfg.extract.max_read_kb >= 4 ==> r >= 4096,
        cfg.extract.max_read_kb >= 1024 && 512 <= budget_chars <= 131_072 ==> r == budget_chars * 8,
        cfg.extract.max_read_kb >= 1024 && budget_chars < 512 ==> r == 4096,
{
}

/// What is kept of a file: its snippet is the beginning of its body; without a body it is known by
/// its name only, and otherwise by the way it was read.
pub proof fn a_file_is_known_by_what_was_read(
    extractor: Extractor,
    raw: Option<String>,
    profile: Profile,
    r: Extracted,
)
    requires
        call_ensures(finish, (extractor, raw, profile), r),
    ensures
        r.body@.len() <= 300 ==> r.snippet@ == r.body@,
        r.body@.len() > 300 ==> r.snippet@ == r.body@.take(300),
        raw is None ==> r.body@.len() == 0 && r.kind == Kind::NameOnly,
        profile == Profile::NameOnly ==> r.body@.len() == 0,
        profile == Profile::Content ==> r.body@.len() <= 1024,
        profile == Profile::Code ==> r.body@.len() <= 256,
        r.body@.len() > 0 && extractor == Extractor::Head ==> r.kind == Kind::Text,
        r.body@.len() > 0 && extractor == Extractor::Pdf ==> r.kind == Kind::Pdf,
        r.body@.len() > 0 && extractor == Extractor::Office ==> r.kind == Kind::Office,
        r.body@.len() > 0 && extractor == Extractor::Media ==> r.kind == Kind::Media,
{
    if r.body@.len() <= 300 {
        assert(chars::first_chars(r.body@, 300) =~= r.body@);
    }
}

/// A place is written on a line of its own before the text, where there is one.
pub proof fn the_place_comes_first(place: Option<String>, t: &str, r: String)
    requires
        call_ensures(with_place, (&place, t), r),
    ensures
        place is None ==> r@ == t@,
        place is Some ==> r@ == place->0@ + seq!['\n'] + t@,
{
    reveal_strlit("\n");
    assert("\n"@ =~= seq!['\n']);
}

/// The last two lines of what the tool prints are the place, and the others are the text.
pub proof fn the_last_two_lines_are_the_place(s: &str, r: Option<MediaOutput>)
    requires
        call_ensures(parse_media_output, (s,), r),
    ensures
        ({
            let ls = lines(s@).filter(|l: Seq<char>| !chars::all_whitespace(l));
            let n = ls.len() as int;
            &&& r is Some <==> n >= 2
            &&& r matches Some(m) ==> {
                &&& m.lat@ == chars::trimmed(ls[n - 2])
                &&& m.lon@ == chars::trimmed(ls[n - 1])
                &&& m.text@ == text::joined(ls.take(n - 2), "\n"@)
            }
        }),
{
    only_blank_lines_are_left_out(lines(s@));
}

/// What is asked of the tool; the place only where it is wanted.
pub proof fn the_tool_is_asked_for_these(geo: bool, r: Vec<String>)
    requires
        call_ensures(media_args, (geo,), r),
    ensures
        text::views(r@).take(8) == seq![
            "-s"@,
            "-s"@,
            "-s"@,
            "-Title"@,
            "-Description"@,
            "-Keywords"@,
            "-Artist"@,
            "-Album"@,
        ],
        !geo ==> text::views(r@).len() == 8,
        geo ==> text::views(r@).skip(8) == seq!["-n"@, "-GPSLatitude"@, "-GPSLongitude"@],
{
    assert(text::views(r@).take(8) =~= seq![
        "-s"@,
        "-s"@,
        "-s"@,
        "-Title"@,
        "-Description"@,
        "-Keywords"@,
        "-Artist"@,
        "-Album"@,
    ]);
    if geo {
        assert(text::views(r@).skip(8) =~= seq!["-n"@, "-GPSLatitude"@, "-GPSLongitude"@]);
    }
}

/// Text is what is not binary, and what a tool prints counts unless it is blank.
pub proof fn what_is_not_binary_is_text(
    head: &[u8],
    r: Option<String>,
    stdout: &[u8],
    t: Option<String>,
)
    requires
        call_ensures(text_of, (head,), r),
        call_ensures(tool_text, (stdout,), t),
    ensures
        r is Some ==> r->0@ == chars::lossy(head@),
        r is None <==> binary(head@),
        t is None <==> chars::trimmed(chars::lossy(stdout@)).len() == 0,
        t is Some ==> t->0@ == chars::lossy(stdout@),
{
}

} // verus!
