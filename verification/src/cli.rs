//! Command-line arguments and how they resolve into an execution mode.
//!
//! Paths are held as text; the program's argument parser fills these types.
use vstd::prelude::*;
use vstd::string::StringSliceAdditionalSpecFns;

use crate::text::{lossy_utf8, string_from_utf8_lossy, trim_slice, trimmed};

verus! {

/// `wal-rust run`: a script file, waveforms to load, or code to evaluate.
#[derive(Debug)]
pub struct RunArgs {
    pub file: Option<String>,
    pub load: Vec<String>,
    pub code: Option<String>,
}

/// `wal-rust count <wave> <sig> [value]`.
#[derive(Debug)]
pub struct CountArgs {
    pub wave: String,
    pub sig: String,
    pub value: i64,
}

/// `wal-rust sigs <wave> <pattern> [limit]`.
#[derive(Debug)]
pub struct SigsArgs {
    pub wave: String,
    pub pattern: String,
    pub limit: usize,
}

/// `wal-rust topsig <wave> [limit]`.
#[derive(Debug)]
pub struct TopsigArgs {
    pub wave: String,
    pub limit: usize,
}

/// `wal-rust fsdb-timeline-map <file> <shard> <shards> <out>`.
#[derive(Debug)]
pub struct FsdbTimelineMapArgs {
    pub file: String,
    pub shard: usize,
    pub shards: usize,
    pub out: String,
}

/// `wal-rust fsdb-timeline-merge <file> <parts>... [--cache-dir]`.
#[derive(Debug)]
pub struct FsdbTimelineMergeArgs {
    pub file: String,
    pub parts: Vec<String>,
    pub cache_dir: Option<String>,
}

/// The subcommands.
#[derive(Debug)]
pub enum Command {
    Run(RunArgs),
    Repl,
    Count(CountArgs),
    Sigs(SigsArgs),
    Topsig(TopsigArgs),
    FsdbTimelineMap(FsdbTimelineMapArgs),
    FsdbTimelineMerge(FsdbTimelineMergeArgs),
}

/// The program's arguments.
#[derive(Debug)]
pub struct Args {
    /// A WAL expression (starting with '(') or a script file path.
    pub input: Option<String>,
    /// Waveform files to load first.
    pub load: Vec<String>,
    /// Stop at the first script error.
    pub halt_on_error: bool,
    /// Read expressions line by line from standard input.
    pub stdin: bool,
    pub command: Option<Command>,
}

/// What to run.
pub enum ExecMode {
    RunScript { path: String, load: Vec<String>, code: Option<String>, halt_on_error: bool },
    EvalExpr { code: String, load: Vec<String> },
    StdinSession { load: Vec<String> },
    Repl,
    FsdbTimelineMap { file: String, shard: usize, shards: usize, out: String },
    FsdbTimelineMerge { file: String, parts: Vec<String>, cache_dir: Option<String> },
    Count { wave: String, sig: String, value: i64 },
    Sigs { wave: String, pattern: String, limit: usize },
    Topsig { wave: String, limit: usize },
}

/// Text that reads as a WAL expression: it starts with '(' or a quote.
pub open spec fn is_expression_text(t: Seq<u8>) -> bool {
    t.len() > 0 && (t[0] == 0x28 || t[0] == 0x27)
}

/// Bytes of a string's text.
pub open spec fn str_bytes(s: Seq<char>) -> Seq<u8> {
    vstd::utf8::encode_utf8(s)
}

/// How arguments resolve: a subcommand decides; `run` evaluates its code
/// when given and runs its file otherwise (neither is refused: `None`);
/// without a subcommand, `--stdin` starts a session, no input starts the
/// REPL, input that reads as an expression is evaluated, and any other input
/// is a script path. Input is trimmed.
pub open spec fn resolves_to(a: Args, r: Option<ExecMode>) -> bool {
    match a.command {
        Some(Command::Run(ra)) => match ra.code {
            Some(code) => r matches Some(ExecMode::EvalExpr { code: c, load: l }) && c == code
                && l == ra.load,
            None => match ra.file {
                Some(path) => r matches Some(
                    ExecMode::RunScript { path: p, load: l, code: c, halt_on_error: h },
                ) && p == path && l == ra.load && c is None && h == a.halt_on_error,
                None => r is None,
            },
        },
        Some(Command::Repl) => r matches Some(ExecMode::Repl),
        Some(Command::Count(c)) => r matches Some(ExecMode::Count { wave, sig, value })
            && wave == c.wave && sig == c.sig && value == c.value,
        Some(Command::Sigs(s)) => r matches Some(ExecMode::Sigs { wave, pattern, limit })
            && wave == s.wave && pattern == s.pattern && limit == s.limit,
        Some(Command::Topsig(t)) => r matches Some(ExecMode::Topsig { wave, limit })
            && wave == t.wave && limit == t.limit,
        Some(Command::FsdbTimelineMap(m)) => r matches Some(
            ExecMode::FsdbTimelineMap { file, shard, shards, out },
        ) && file == m.file && shard == m.shard && shards == m.shards && out == m.out,
        Some(Command::FsdbTimelineMerge(m)) => r matches Some(
            ExecMode::FsdbTimelineMerge { file, parts, cache_dir },
        ) && file == m.file && parts == m.parts && cache_dir == m.cache_dir,
        None => if a.stdin {
            r matches Some(ExecMode::StdinSession { load }) && load == a.load
        } else {
            match a.input {
                None => r matches Some(ExecMode::Repl),
                Some(input) => {
                    let t = trimmed(str_bytes(input@));
                    if is_expression_text(t) {
                        r matches Some(ExecMode::EvalExpr { code, load }) && code@ == lossy_utf8(
                            t,
                        ) && load == a.load
                    } else {
                        r matches Some(
                            ExecMode::RunScript { path, load, code, halt_on_error },
                        ) && path@ == lossy_utf8(t) && load == a.load && code is None
                            && halt_on_error == a.halt_on_error
                    }
                },
            }
        },
    }
}

/// Input that is no expression and may be a mistaken argument (it does not
/// start a comment and has no line break): the program warns when no such
/// file exists.
pub open spec fn warns_if_missing(t: Seq<u8>) -> bool {
    !is_expression_text(t) && !(t.len() > 0 && t[0] == 0x3B) && !t.contains(0x0Au8)
}

/// Whether a trimmed input that names no existing file deserves the hint
/// that it is neither an expression nor a script.
pub fn needs_input_hint(trimmed_input: &str) -> (r: bool)
    ensures
        r == warns_if_missing(trimmed_input.spec_bytes()),
{
    let t: &[u8] = trimmed_input.as_bytes();
    if t.len() > 0 && (t[0] == 0x28 || t[0] == 0x27 || t[0] == 0x3B) {
        return false;
    }
    let mut i: usize = 0;
    while i < t.len()
        invariant
            i <= t@.len(),
            t@ == trimmed_input.spec_bytes(),
            !(t@.len() > 0 && (t@[0] == 0x28 || t@[0] == 0x27 || t@[0] == 0x3B)),
            forall|k: int| 0 <= k < i ==> t@[k] != 0x0A,
        decreases t@.len() - i,
    {
        if t[i] == 0x0A {
            proof {
                assert(t@[i as int] == 0x0Au8);
                assert(t@.contains(0x0Au8));
                assert(!warns_if_missing(t@));
            }
            return false;
        }
        i = i + 1;
    }
    true
}

impl Args {
    /// The execution mode the arguments ask for; `None` for `run` with
    /// neither a file nor code.
    pub fn resolve(self) -> (r: Option<ExecMode>)
        ensures
            resolves_to(self, r),
    {
        let halt = self.halt_on_error;
        match self.command {
            Some(cmd) => {
                return match cmd {
                    Command::Run(ra) => match ra.code {
                        Some(code) => Some(ExecMode::EvalExpr { code, load: ra.load }),
                        None => match ra.file {
                            Some(path) => Some(
                                ExecMode::RunScript {
                                    path,
                                    load: ra.load,
                                    code: None,
                                    halt_on_error: halt,
                                },
                            ),
                            None => None,
                        },
                    },
                    Command::Repl => Some(ExecMode::Repl),
                    Command::Count(c) => Some(
                        ExecMode::Count { wave: c.wave, sig: c.sig, value: c.value },
                    ),
                    Command::Sigs(s) => Some(
                        ExecMode::Sigs { wave: s.wave, pattern: s.pattern, limit: s.limit },
                    ),
                    Command::Topsig(t) => Some(ExecMode::Topsig { wave: t.wave, limit: t.limit }),
                    Command::FsdbTimelineMap(m) => Some(
                        ExecMode::FsdbTimelineMap {
                            file: m.file,
                            shard: m.shard,
                            shards: m.shards,
                            out: m.out,
                        },
                    ),
                    Command::FsdbTimelineMerge(m) => Some(
                        ExecMode::FsdbTimelineMerge {
                            file: m.file,
                            parts: m.parts,
                            cache_dir: m.cache_dir,
                        },
                    ),
                };
            },
            None => {},
        }
        let load = self.load;
        if self.stdin {
            return Some(ExecMode::StdinSession { load });
        }
        match self.input {
            None => Some(ExecMode::Repl),
            Some(input) => {
                let t = trim_slice(input.as_str().as_bytes());
                let text = string_from_utf8_lossy(t);
                if t.len() > 0 && (t[0] == 0x28 || t[0] == 0x27) {
                    Some(ExecMode::EvalExpr { code: text, load })
                } else {
                    Some(ExecMode::RunScript { path: text, load, code: None, halt_on_error: halt })
                }
            },
        }
    }
}

} // verus!
