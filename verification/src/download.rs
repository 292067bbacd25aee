//! Fetching model files on first use: where they come from and go to, and when a file may be used.
use crate::config::Paths;
use crate::path;
use crate::text;
use vstd::prelude::*;

verus! {

/// Where the two files of a model live once fetched.
#[derive(Debug, Clone)]
pub struct ModelFiles {
    pub onnx: String,
    pub tokenizer: String,
}

/// Where the files of the model `id` live.
pub fn model_files(paths: &Paths, id: &str) -> (r: ModelFiles)
    ensures
        ({
            let dir = path::joined(path::joined(paths.data_dir@, "models"@), id@);
            &&& r.onnx@ == path::joined(dir, "model.onnx"@)
            &&& r.tokenizer@ == path::joined(dir, "tokenizer.json"@)
        }),
{
    let dir = paths.model_dir(id);
    ModelFiles {
        onnx: path::join(dir.as_str(), "model.onnx"),
        tokenizer: path::join(dir.as_str(), "tokenizer.json"),
    }
}

/// The address of a file in a model repository.
pub fn hf_url(repo: &str, path: &str) -> (r: String)
    ensures
        r@ == "https://huggingface.co/"@ + repo@ + "/resolve/main/"@ + path@,
{
    let mut s = "https://huggingface.co/".to_owned();
    s.append(repo);
    s.append("/resolve/main/");
    s.append(path);
    s
}

/// The temporary sibling that a download is written to, so an interrupted one never leaves a
/// half-written file that passes for a whole one.
pub fn partial_file(dest: &str) -> (r: String)
    ensures
        r@ == path::with_extension_of(dest@, "part"@),
{
    proof {
        reveal_strlit("part");
    }
    path::with_extension(dest, "part")
}

/// Where the optimised copy of a graph is kept.
pub fn optimised_file(onnx: &str) -> (r: String)
    ensures
        r@ == path::with_extension_of(onnx@, "opt.onnx"@),
{
    proof {
        reveal_strlit("opt.onnx");
    }
    path::with_extension(onnx, "opt.onnx")
}

/// Whether the optimised copy of a graph can stand for it: both have a modification time, and the
/// copy is not older. Without usable timestamps, correctness comes before speed.
pub fn use_optimised(copy: Option<i64>, graph: Option<i64>) -> (r: bool)
    ensures
        r == (match (copy, graph) {
            (Some(c), Some(g)) => c >= g,
            _ => false,
        }),
{
    match copy {
        Some(c) => match graph {
            Some(g) => c >= g,
            None => false,
        },
        None => false,
    }
}

// ------------------------------------------------------------------ pins

/// Whether a file with the digest `got` is the one that was pinned; anything is where nothing was.
pub open spec fn pin_holds(expected: Option<Seq<char>>, got: Seq<char>) -> bool {
    match expected {
        Some(want) => got == want,
        None => true,
    }
}

/// What is said of a file that is not the pinned one.
pub open spec fn pin_message(
    file: Seq<char>,
    want: Seq<char>,
    got: Seq<char>,
    label: Seq<char>,
) -> Seq<char> {
    label + " at "@ + file + " failed hash pin: expected "@ + want + ", got "@ + got
        + ". Removed nothing; delete the file and re-run to re-download"@
}

/// The text of an optional string.
pub open spec fn pin_of(s: Option<&'static str>) -> Option<Seq<char>> {
    match s {
        Some(s) => Some(s@),
        None => None,
    }
}

/// Holds the digest of a file against its pin.
pub fn verify_pin(file: &str, got: &str, expected: Option<&'static str>, label: &str) -> (r: Result<
    (),
    String,
>)
    ensures
        match r {
            Ok(_) => pin_holds(pin_of(expected), got@),
            Err(m) => !pin_holds(pin_of(expected), got@) && m@ == pin_message(
                file@,
                pin_of(expected)->0,
                got@,
                label@,
            ),
        },
{
    match expected {
        None => Ok(()),
        Some(want) => {
            if text::same(got, want) {
                return Ok(());
            }
            let mut m = label.to_owned();
            m.append(" at ");
            m.append(file);
            m.append(" failed hash pin: expected ");
            m.append(want);
            m.append(", got ");
            m.append(got);
            m.append(". Removed nothing; delete the file and re-run to re-download");
            proof {
                assert(m@ =~= pin_message(file@, want@, got@, label@));
            }
            Err(m)
        },
    }
}

// ------------------------------------------------------------------ resolving a file

/// How far the resolution of one file has come.
#[derive(Debug, Clone, Copy, PartialEq, Eq, Structural)]
pub enum Stage {
    /// Not looked for yet.
    Start,
    /// Found on disk, being held against its pin.
    Found,
    /// Being downloaded.
    Fetching,
    /// Downloaded, being held against its pin.
    Fetched,
    /// Usable.
    Ready,
    /// Downloaded, and not the pinned file.
    Refused,
}

/// What happened.
#[derive(Debug, Clone)]
pub enum Happening {
    /// The file was looked for.
    Looked { present: bool },
    /// The file was downloaded.
    Downloaded,
    /// The file was hashed.
    Hashed { digest: String },
}

/// What to do next.
#[derive(Debug)]
pub enum Step {
    /// Hash the file.
    Hash,
    /// Download the file.
    Fetch,
    /// Say why, remove the file, and download it again.
    Replace { why: String },
    /// Use the file.
    Use,
    /// Give up.
    Fail { why: String },
    /// Nothing: this cannot happen at this stage.
    Nothing,
}

/// The stage after something happened. An existing file that is not the pinned one is downloaded
/// again once; a second mismatch is an error instead of a loop.
pub open spec fn next_stage(stage: Stage, h: Happening, pin: Option<Seq<char>>) -> Stage {
    match (stage, h) {
        (Stage::Start, Happening::Looked { present }) => if present {
            if pin is Some {
                Stage::Found
            } else {
                Stage::Ready
            }
        } else {
            Stage::Fetching
        },
        (Stage::Found, Happening::Hashed { digest }) => if pin_holds(pin, digest@) {
            Stage::Ready
        } else {
            Stage::Fetching
        },
        (Stage::Fetching, Happening::Downloaded) => if pin is Some {
            Stage::Fetched
        } else {
            Stage::Ready
        },
        (Stage::Fetched, Happening::Hashed { digest }) => if pin_holds(pin, digest@) {
            Stage::Ready
        } else {
            Stage::Refused
        },
        _ => stage,
    }
}

/// Whether `step` is what to do when a file comes from one stage to another.
pub open spec fn step_is(
    step: Step,
    from: Stage,
    to: Stage,
    h: Happening,
    file: Seq<char>,
    pin: Option<Seq<char>>,
    label: Seq<char>,
) -> bool {
    let why = match h {
        Happening::Hashed { digest } => pin_message(file, pin->0, digest@, label),
        _ => Seq::<char>::empty(),
    };
    if from == to {
        step is Nothing
    } else {
        match to {
            Stage::Start => false,
            Stage::Found => step is Hash,
            Stage::Fetched => step is Hash,
            Stage::Fetching => if from == Stage::Start {
                step is Fetch
            } else {
                step is Replace && step->Replace_why@ == why
            },
            Stage::Ready => step is Use,
            Stage::Refused => step is Fail && step->Fail_why@ == why,
        }
    }
}

/// Decides the next stage of a file, and what to do.
pub fn advance(
    stage: Stage,
    h: &Happening,
    file: &str,
    pin: Option<&'static str>,
    label: &str,
) -> (r: (Stage, Step))
    ensures
        r.0 == next_stage(stage, *h, pin_of(pin)),
        step_is(r.1, stage, r.0, *h, file@, pin_of(pin), label@),
{
    match (stage, h) {
        (Stage::Start, Happening::Looked { present }) => {
            if *present {
                if pin.is_some() {
                    (Stage::Found, Step::Hash)
                } else {
                    (Stage::Ready, Step::Use)
                }
            } else {
                (Stage::Fetching, Step::Fetch)
            }
        },
        (Stage::Found, Happening::Hashed { digest }) => {
            match verify_pin(file, digest.as_str(), pin, label) {
                Ok(_) => (Stage::Ready, Step::Use),
                Err(why) => (Stage::Fetching, Step::Replace { why }),
            }
        },
        (Stage::Fetching, Happening::Downloaded) => {
            if pin.is_some() {
                (Stage::Fetched, Step::Hash)
            } else {
                (Stage::Ready, Step::Use)
            }
        },
        (Stage::Fetched, Happening::Hashed { digest }) => {
            match verify_pin(file, digest.as_str(), pin, label) {
                Ok(_) => (Stage::Ready, Step::Use),
                Err(why) => (Stage::Refused, Step::Fail { why }),
            }
        },
        _ => (stage, Step::Nothing),
    }
}

/// How many downloads can still follow.
pub open spec fn downloads_left(stage: Stage) -> int {
    match stage {
        Stage::Start => 1,
        Stage::Found => 1,
        _ => 0,
    }
}

/// A file is downloaded at most once: whatever happens, the stage that starts a download uses the
/// only one that was left.
pub proof fn a_file_is_downloaded_at_most_once(stage: Stage, h: Happening, pin: Option<Seq<char>>)
    ensures
        ({
            let next = next_stage(stage, h, pin);
            &&& downloads_left(next) <= downloads_left(stage)
            &&& next == Stage::Fetching && stage != Stage::Fetching ==> downloads_left(stage) == 1
                && downloads_left(next) == 0
        }),
{
}

/// A pinned file becomes usable only when its digest is the pinned one.
pub proof fn a_usable_file_matches_its_pin(stage: Stage, h: Happening, want: Seq<char>)
    requires
        stage != Stage::Ready,
        next_stage(stage, h, Some(want)) == Stage::Ready,
    ensures
        h matches Happening::Hashed { digest } && digest@ == want,
{
}

// ------------------------------------------------------------------ sanity checks

/// A graph smaller than this cannot be whole.
pub const SMALLEST_GRAPH: u64 = 1_000_000;

/// Refuses a graph that is too small to be one. A truncated download would load as a corrupt graph
/// with an opaque error.
pub fn size_refusal(id: &str, got: u64) -> (r: Option<String>)
    ensures
        match r {
            Some(m) => got < SMALLEST_GRAPH && m@ == "downloaded model for "@ + id@ + " was only "@
                + text::decimal(got as nat)
                + " bytes, which cannot be right; removed it, please re-run"@,
            None => got >= SMALLEST_GRAPH,
        },
{
    if got < SMALLEST_GRAPH {
        let mut m = "downloaded model for ".to_owned();
        m.append(id);
        m.append(" was only ");
        m.append(text::dec(got).as_str());
        m.append(" bytes, which cannot be right; removed it, please re-run");
        Some(m)
    } else {
        None
    }
}

/// Refuses a download of another length than the server announced.
pub fn truncation_refusal(label: &str, written: u64, announced: Option<u64>) -> (r: Option<String>)
    ensures
        match r {
            Some(m) => announced is Some && announced->0 != written && m@ == "download of "@ + label@
                + " was truncated: got "@ + text::decimal(written as nat) + " of "@ + text::decimal(
                announced->0 as nat,
            ) + " bytes; removed the partial file, please re-run"@,
            None => announced is None || announced->0 == written,
        },
{
    match announced {
        None => None,
        Some(expected) => {
            if written == expected {
                return None;
            }
            let mut m = "download of ".to_owned();
            m.append(label);
            m.append(" was truncated: got ");
            m.append(text::dec(written).as_str());
            m.append(" of ");
            m.append(text::dec(expected).as_str());
            m.append(" bytes; removed the partial file, please re-run");
            Some(m)
        },
    }
}

/// What the user is told before a model is downloaded.
pub fn fetch_notice(id: &str, approx_mb: u64, repo: &str) -> (r: String)
    ensures
        r@ == "fetching model "@ + id@ + " (~"@ + text::decimal(approx_mb as nat) + " MB) from "@
            + repo@,
{
    let mut m = "fetching model ".to_owned();
    m.append(id);
    m.append(" (~");
    m.append(text::dec(approx_mb).as_str());
    m.append(" MB) from ");
    m.append(repo);
    m
}

/// Without a pin any file will do; with one, only the file of that digest: an existing one is used,
/// or downloaded again where it is another, and a downloaded one is used, or refused for good.
pub proof fn a_pin_decides_what_is_used(h: Happening, pin: Seq<char>)
    ensures
        next_stage(Stage::Start, Happening::Looked { present: false }, Some(pin)) == Stage::Fetching,
        next_stage(Stage::Start, Happening::Looked { present: false }, None) == Stage::Fetching,
        next_stage(Stage::Start, Happening::Looked { present: true }, Some(pin)) == Stage::Found,
        next_stage(Stage::Start, Happening::Looked { present: true }, None) == Stage::Ready,
        next_stage(Stage::Fetching, Happening::Downloaded, Some(pin)) == Stage::Fetched,
        next_stage(Stage::Fetching, Happening::Downloaded, None) == Stage::Ready,
        h matches Happening::Hashed { digest } ==> {
            &&& digest@ == pin ==> next_stage(Stage::Found, h, Some(pin)) == Stage::Ready
                && next_stage(Stage::Fetched, h, Some(pin)) == Stage::Ready
            &&& digest@ != pin ==> next_stage(Stage::Found, h, Some(pin)) == Stage::Fetching
                && next_stage(Stage::Fetched, h, Some(pin)) == Stage::Refused
        },
        next_stage(Stage::Ready, h, Some(pin)) == Stage::Ready,
        next_stage(Stage::Refused, h, Some(pin)) == Stage::Refused,
        pin_holds(None, pin),
        pin_holds(Some(pin), pin),
{
}

/// Two digests are the same exactly where the pin holds.
pub proof fn a_pin_holds_for_one_digest(pin: Seq<char>, got: Seq<char>)
    ensures
        pin_holds(Some(pin), got) <==> pin == got,
{
}

/// An optimised copy is used unless the graph is newer, or either is missing; a graph of under a
/// million bytes is refused, and so is a file that is not as long as was announced.
pub proof fn only_whole_files_are_used(
    copy: Option<i64>,
    graph: Option<i64>,
    used: bool,
    id: &str,
    got: u64,
    small: Option<String>,
    announced: Option<u64>,
    cut: Option<String>,
)
    requires
        call_ensures(use_optimised, (copy, graph), used),
        call_ensures(size_refusal, (id, got), small),
        call_ensures(truncation_refusal, (id, got, announced), cut),
    ensures
        used <==> copy is Some && graph is Some && copy->0 >= graph->0,
        small is Some <==> got < 1_000_000,
        cut is Some <==> announced is Some && announced->0 != got,
{
}

/// A model's files lie in a directory of its name among the models.
pub proof fn a_model_has_its_own_directory(paths: Paths, id: &str, r: ModelFiles)
    requires
        call_ensures(model_files, (&paths, id), r),
    ensures
        r.onnx@ == path::joined(
            path::joined(path::joined(paths.data_dir@, "models"@), id@),
            "model.onnx"@,
        ),
        r.tokenizer@ == path::joined(
            path::joined(path::joined(paths.data_dir@, "models"@), id@),
            "tokenizer.json"@,
        ),
{
}

/// What is done at each turn: a missing file is fetched; one with a pin is hashed when it is found
/// and when it was fetched; one of another digest is replaced if it was found and refused if it was
/// fetched, with a message that holds both digests; and what is ready is used.
pub proof fn each_turn_has_its_step(
    step: Step,
    h: Happening,
    digest: String,
    file: Seq<char>,
    pin: Seq<char>,
    label: Seq<char>,
)
    ensures
        ({
            let hashed = Happening::Hashed { digest };
            let why = pin_message(file, pin, digest@, label);
            let s = |from: Stage, to: Stage, h: Happening|
                step_is(step, from, to, h, file, Some(pin), label);
            &&& s(Stage::Start, Stage::Fetching, h) <==> step is Fetch
            &&& s(Stage::Start, Stage::Found, h) <==> step is Hash
            &&& s(Stage::Fetching, Stage::Fetched, h) <==> step is Hash
            &&& s(Stage::Start, Stage::Ready, h) <==> step is Use
            &&& s(Stage::Found, Stage::Ready, h) <==> step is Use
            &&& s(Stage::Fetched, Stage::Ready, h) <==> step is Use
            &&& s(Stage::Found, Stage::Fetching, hashed) <==> step is Replace && step->Replace_why@
                == why
            &&& s(Stage::Fetched, Stage::Refused, hashed) <==> step is Fail && step->Fail_why@
                == why
            &&& s(Stage::Ready, Stage::Ready, h) <==> step is Nothing
            &&& !s(Stage::Found, Stage::Start, h)
        }),
{
}

} // verus!
