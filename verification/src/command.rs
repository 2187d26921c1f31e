use vstd::prelude::*;

use crate::paths::{resolve_cd_target, spec_cd_raw, spec_cd_target};
use crate::state::State;
use crate::text::{
    join_with, parse_i32, spec_join, spec_parse_i32, spec_trim_end, spec_trim_start, str_eq,
    trim_end, trim_start, words_view,
};

verus! {

// ---------------------------------------------------------------------------
// The executable index
// ---------------------------------------------------------------------------

/// One executable visible on the search path: its file name and its full
/// filesystem path.
pub struct ExecEntry {
    pub name: String,
    pub path: String,
}

/// A fixed listing of the executables on the search path, in search-path
/// order, built once by the surrounding program and then only read.  The
/// first entry with a given name wins.
pub struct ExecutableIndex {
    pub entries: Vec<ExecEntry>,
}

pub open spec fn index_view(index: &ExecutableIndex) -> Seq<(Seq<char>, Seq<char>)> {
    index.entries@.map_values(|e: ExecEntry| (e.name@, e.path@))
}

/// The path of the first entry with the given name, if any.
pub open spec fn spec_find(ix: Seq<(Seq<char>, Seq<char>)>, target: Seq<char>) -> Option<
    Seq<char>,
>
    decreases ix.len(),
{
    if ix.len() == 0 {
        Option::<Seq<char>>::None
    } else if ix[0].0 == target {
        Option::Some(ix[0].1)
    } else {
        spec_find(ix.skip(1), target)
    }
}

impl ExecutableIndex {
    /// Wraps a listing gathered by the surrounding program.
    pub fn new(entries: Vec<ExecEntry>) -> (r: ExecutableIndex)
        ensures
            index_view(&r) == entries@.map_values(|e: ExecEntry| (e.name@, e.path@)),
    {
        ExecutableIndex { entries }
    }
}

// ---------------------------------------------------------------------------
// Resolved commands
// ---------------------------------------------------------------------------

/// A command invocation after resolution: one builtin, an external
/// executable found on the search path, or an unknown name.
pub enum CommandType {
    Unknown(String),
    Exit(i32),
    Echo(String),
    Type(String),
    Pwd(String),
    Cd(String),
    External { command: String, args: Vec<String> },
}

impl CommandType {
    /// The first entry of the index whose name matches, in search-path
    /// order.
    pub fn find_ext_command<'a>(target: &str, index: &'a ExecutableIndex) -> (r: Option<
        &'a ExecEntry,
    >)
        ensures
            match r {
                Option::Some(e) => spec_find(index_view(index), target@) == Option::Some(e.path@)
                    && e.name@ == target@,
                Option::None => spec_find(index_view(index), target@) is None,
            },
    {
        let ghost iv = index_view(index);
        let mut i: usize = 0;
        proof {
            assert(iv.skip(0) =~= iv);
        }
        while i < index.entries.len()
            invariant
                i <= index.entries@.len(),
                iv == index_view(index),
                iv.len() == index.entries@.len(),
                spec_find(iv, target@) == spec_find(iv.skip(i as int), target@),
            decreases index.entries@.len() - i,
        {
            proof {
                assert(iv.skip(i as int)[0] == iv[i as int]);
                assert(iv.skip(i as int).skip(1) =~= iv.skip(i as int + 1));
            }
            let entry = &index.entries[i];
            if str_eq(entry.name.as_str(), target) {
                return Option::Some(entry);
            }
            i += 1;
        }
        proof {
            assert(iv.skip(iv.len() as int).len() == 0);
        }
        Option::None
    }
}

// ---------------------------------------------------------------------------
// Resolution of a word list
// ---------------------------------------------------------------------------

/// The inputs on which resolving a segment is defined: the segment is not
/// empty, an `exit` argument must be a decimal number in range, and a `cd`
/// must designate a non-empty raw path (so the home directory must not be
/// empty when it is what the argument falls back to).
pub open spec fn seg_parse_ok(words: Seq<Seq<char>>, home: Seq<char>) -> bool {
    &&& words.len() > 0
    &&& (words[0] == "exit"@ && words.len() > 1 ==> spec_parse_i32(words[1]) is Some)
    &&& (words[0] == "cd"@ ==> spec_cd_raw(spec_join(words.skip(1), ' '), home).len() > 0)
}

/// What resolving a segment returns, for every case: the first word selects
/// the builtin; any other word is looked up in the executable index.
pub open spec fn cmd_resolves(
    words: Seq<Seq<char>>,
    pwd: Seq<char>,
    home: Seq<char>,
    ix: Seq<(Seq<char>, Seq<char>)>,
    r: CommandType,
) -> bool {
    let cmd = words[0];
    let args = words.skip(1);
    let joined = spec_join(args, ' ');
    if cmd == "exit"@ {
        r matches CommandType::Exit(c) && (args.len() == 0 ==> c == 0) && (args.len() > 0
            ==> spec_parse_i32(args[0]) == Option::Some(c))
    } else if cmd == "echo"@ {
        r matches CommandType::Echo(t) && t@ == joined
    } else if cmd == "type"@ {
        r matches CommandType::Type(t) && t@ == if joined.len() == 0 {
            "type"@
        } else {
            joined
        }
    } else if cmd == "pwd"@ {
        r matches CommandType::Pwd(p) && p@ == pwd
    } else if cmd == "cd"@ {
        r matches CommandType::Cd(p) && p@ == spec_cd_target(joined, home, pwd)
    } else {
        match spec_find(ix, cmd) {
            Option::Some(_) => r matches CommandType::External { command, args: a } && command@
                == cmd && words_view(a@) == args,
            Option::None => r matches CommandType::Unknown(name) && name@ == cmd,
        }
    }
}

impl CommandType {
    /// Resolves a segment's word list against the session context, the home
    /// directory and the executable index.
    pub fn parse(parsed_input: Vec<String>, state: &State, home: &str, index: &ExecutableIndex)
        -> (r: CommandType)
        requires
            parsed_input@.len() > 0,
            seg_parse_ok(words_view(parsed_input@), home@),
        ensures
            cmd_resolves(words_view(parsed_input@), state.pwd@, home@, index_view(index), r),
    {
        let ghost words = words_view(parsed_input@);
        let joined = join_with(&parsed_input, 1, ' ');
        proof {
            assert(words_view(parsed_input@.skip(1)) =~= words.skip(1));
        }
        let command: &String = &parsed_input[0];
        if str_eq(command.as_str(), "exit") {
            if parsed_input.len() == 1 {
                CommandType::Exit(0)
            } else {
                match parse_i32(parsed_input[1].as_str()) {
                    Option::Some(code) => CommandType::Exit(code),
                    Option::None => unreached(),
                }
            }
        } else if str_eq(command.as_str(), "echo") {
            CommandType::Echo(joined)
        } else if str_eq(command.as_str(), "type") {
            if joined.as_str().is_empty() {
                CommandType::Type("type".to_owned())
            } else {
                CommandType::Type(joined)
            }
        } else if str_eq(command.as_str(), "pwd") {
            CommandType::Pwd(state.pwd().to_owned())
        } else if str_eq(command.as_str(), "cd") {
            let target = resolve_cd_target(joined.as_str(), home, state.pwd());
            CommandType::Cd(target)
        } else {
            match Self::find_ext_command(command.as_str(), index) {
                Option::Some(_) => {
                    let mut args: Vec<String> = Vec::new();
                    let mut k: usize = 1;
                    proof {
                        assert(words_view(args@) =~= words.subrange(1, 1));
                    }
                    while k < parsed_input.len()
                        invariant
                            1 <= k <= parsed_input@.len(),
                            words == words_view(parsed_input@),
                            words.len() == parsed_input@.len(),
                            words_view(args@) == words.subrange(1, k as int),
                        decreases parsed_input@.len() - k,
                    {
                        let ghost pre = args@;
                        args.push(parsed_input[k].clone());
                        proof {
                            assert(words_view(args@) =~= words_view(pre).push(words[k as int]));
                            assert(words.subrange(1, k as int + 1) =~= words.subrange(
                                1,
                                k as int,
                            ).push(words[k as int]));
                        }
                        k += 1;
                    }
                    proof {
                        assert(words.subrange(1, words.len() as int) =~= words.skip(1));
                    }
                    CommandType::External { command: command.clone(), args }
                },
                Option::None => CommandType::Unknown(command.clone()),
            }
        }
    }
}

// ---------------------------------------------------------------------------
// Builtins
// ---------------------------------------------------------------------------

pub open spec fn is_builtin_name(name: Seq<char>) -> bool {
    name == "exit"@ || name == "echo"@ || name == "type"@ || name == "pwd"@ || name == "cd"@
}

/// Whether the name is one of the interpreter's builtins.
pub fn is_builtin(name: &str) -> (r: bool)
    ensures
        r == is_builtin_name(name@),
{
    str_eq(name, "exit") || str_eq(name, "echo") || str_eq(name, "type") || str_eq(name, "pwd")
        || str_eq(name, "cd")
}

/// The builtin names, for seeding a completion provider alongside the
/// executable index's keys.
pub fn builtin_names() -> (r: Vec<String>)
    ensures
        words_view(r@) == seq!["exit"@, "echo"@, "type"@, "pwd"@, "cd"@],
{
    let mut v: Vec<String> = Vec::new();
    v.push("exit".to_owned());
    v.push("echo".to_owned());
    v.push("type".to_owned());
    v.push("pwd".to_owned());
    v.push("cd".to_owned());
    proof {
        assert(words_view(v@) =~= seq!["exit"@, "echo"@, "type"@, "pwd"@, "cd"@]);
    }
    v
}

// ---------------------------------------------------------------------------
// Execution against the session context
// ---------------------------------------------------------------------------

/// What the outside world must do before a command can finish executing.
pub enum Action {
    /// Nothing: the command is computed entirely from the session context.
    NoEffect,
    /// Ask the filesystem whether this path exists (for `cd`).
    CheckPath(String),
    /// Run this executable with these arguments and capture its streams.
    RunProcess { command: String, args: Vec<String> },
    /// End the whole session with this status code, without flushing.
    Terminate(i32),
}

/// What the outside world reports back before execution.
pub enum Outcome {
    /// For commands that need nothing from outside.
    Ready,
    /// Whether the checked path exists.
    PathExists(bool),
    /// The filesystem could not answer; the message is reported verbatim.
    PathCheckFailed(String),
    /// The spawned process exited; its captured streams.
    Captured { stdout: String, stderr: String },
    /// The process could not be spawned; the message becomes an error line.
    SpawnFailed(String),
}

/// Which outcomes answer which command.
pub open spec fn outcome_fits(cmd: CommandType, oc: Outcome) -> bool {
    match cmd {
        CommandType::Cd(_) => oc matches Outcome::PathExists(_) || oc matches Outcome::PathCheckFailed(_),
        CommandType::External { .. } => oc matches Outcome::Captured { .. } || oc matches Outcome::SpawnFailed(_),
        _ => oc matches Outcome::Ready,
    }
}

pub open spec fn opt_view(o: Option<String>) -> Option<Seq<char>> {
    match o {
        Option::Some(s) => Option::Some(s@),
        Option::None => Option::None,
    }
}

/// The text a command appends to the output stream, if any.
pub open spec fn cmd_output(cmd: CommandType, oc: Outcome, ix: Seq<(Seq<char>, Seq<char>)>)
    -> Option<Seq<char>> {
    match cmd {
        CommandType::Unknown(_) => Option::None,
        CommandType::Exit(_) => Option::None,
        CommandType::Echo(t) => Option::Some(t@ + "\n"@),
        CommandType::Type(t) => if is_builtin_name(spec_trim_start(t@)) {
            Option::Some(t@ + " is a shell builtin\n"@)
        } else {
            match spec_find(ix, t@) {
                Option::Some(path) => Option::Some(t@ + " is "@ + path + "\n"@),
                Option::None => Option::None,
            }
        },
        CommandType::Pwd(p) => Option::Some(p@ + "\n"@),
        CommandType::Cd(_) => Option::None,
        CommandType::External { .. } => match oc {
            Outcome::Captured { stdout, .. } => Option::Some(stdout@),
            _ => Option::None,
        },
    }
}

/// The text a command appends to the error stream, if any.
pub open spec fn cmd_error(cmd: CommandType, oc: Outcome, ix: Seq<(Seq<char>, Seq<char>)>)
    -> Option<Seq<char>> {
    match cmd {
        CommandType::Unknown(c) => Option::Some(spec_trim_end(c@) + ": command not found\n"@),
        CommandType::Exit(_) => Option::None,
        CommandType::Echo(_) => Option::None,
        CommandType::Type(t) => if is_builtin_name(spec_trim_start(t@)) {
            Option::None
        } else {
            match spec_find(ix, t@) {
                Option::Some(_) => Option::None,
                Option::None => Option::Some(t@ + ": not found\n"@),
            }
        },
        CommandType::Pwd(_) => Option::None,
        CommandType::Cd(p) => match oc {
            Outcome::PathExists(true) => Option::None,
            Outcome::PathExists(false) => Option::Some(
                "cd: "@ + p@ + ": No such file or directory\n"@,
            ),
            Outcome::PathCheckFailed(e) => Option::Some(e@ + "\n"@),
            _ => Option::None,
        },
        CommandType::External { .. } => match oc {
            Outcome::Captured { stderr, .. } => Option::Some(stderr@),
            Outcome::SpawnFailed(m) => Option::Some(m@ + "\n"@),
            _ => Option::None,
        },
    }
}

/// The working directory after a command: only a `cd` whose target exists
/// replaces it.
pub open spec fn cmd_new_pwd(cmd: CommandType, oc: Outcome, old_pwd: Seq<char>) -> Seq<char> {
    match cmd {
        CommandType::Cd(p) => match oc {
            Outcome::PathExists(true) => p@,
            _ => old_pwd,
        },
        _ => old_pwd,
    }
}

/// A resolved command together with the output and error text its execution
/// captured.
pub struct Command {
    pub cmd: CommandType,
    pub output: Option<String>,
    pub error: Option<String>,
}

pub open spec fn opt_ref_view(o: Option<&String>) -> Option<Seq<char>> {
    match o {
        Option::Some(s) => Option::Some(s@),
        Option::None => Option::None,
    }
}

fn concat2(a: &str, b: &str) -> (r: String)
    ensures
        r@ == a@ + b@,
{
    let mut s = a.to_owned();
    s.append(b);
    s
}

/// Clones a word list.
fn clone_words(v: &Vec<String>) -> (r: Vec<String>)
    ensures
        words_view(r@) == words_view(v@),
{
    let mut r: Vec<String> = Vec::new();
    let mut i: usize = 0;
    proof {
        assert(words_view(r@) =~= words_view(v@).take(0));
    }
    while i < v.len()
        invariant
            i <= v@.len(),
            words_view(r@) == words_view(v@).take(i as int),
        decreases v@.len() - i,
    {
        let ghost pre = r@;
        r.push(v[i].clone());
        proof {
            assert(words_view(r@) =~= words_view(pre).push(v@[i as int]@));
            assert(words_view(v@).take(i as int + 1) =~= words_view(v@).take(i as int).push(
                v@[i as int]@,
            ));
        }
        i += 1;
    }
    proof {
        assert(words_view(v@).take(v@.len() as int) =~= words_view(v@));
    }
    r
}

impl Command {
    pub fn new(cmd: CommandType) -> (r: Command)
        ensures
            r.cmd == cmd,
            r.output is None,
            r.error is None,
    {
        Command { cmd, output: Option::None, error: Option::None }
    }

    /// The captured output text, if the command produced any.
    pub fn output(&self) -> (r: Option<&String>)
        ensures
            opt_ref_view(r) == opt_view(self.output),
    {
        match &self.output {
            Option::Some(o) => Option::Some(o),
            Option::None => Option::None,
        }
    }

    /// The captured error text, if the command produced any.
    pub fn error(&self) -> (r: Option<&String>)
        ensures
            opt_ref_view(r) == opt_view(self.error),
    {
        match &self.error {
            Option::Some(e) => Option::Some(e),
            Option::None => Option::None,
        }
    }

    /// What the outside world must do for this command before `exec`.
    pub fn action(&self) -> (a: Action)
        ensures
            match self.cmd {
                CommandType::Cd(p) => a matches Action::CheckPath(q) && q@ == p@,
                CommandType::External { command, args } => a matches Action::RunProcess {
                    command: c,
                    args: ar,
                } && c@ == command@ && words_view(ar@) == words_view(args@),
                CommandType::Exit(code) => a matches Action::Terminate(c) && c == code,
                _ => a matches Action::NoEffect,
            },
    {
        match &self.cmd {
            CommandType::Cd(p) => Action::CheckPath(p.clone()),
            CommandType::External { command, args } => Action::RunProcess {
                command: command.clone(),
                args: clone_words(args),
            },
            CommandType::Exit(code) => Action::Terminate(*code),
            _ => Action::NoEffect,
        }
    }

    /// Executes the resolved command: captures its output and error text and,
    /// for a successful `cd`, replaces the working directory.  The outcome
    /// argument carries what the outside world observed for this command;
    /// every value of it is accounted for.  `Exit` is not acted on here — the
    /// surrounding program terminates on seeing its action.
    pub fn exec(&mut self, state: &mut State, index: &ExecutableIndex, outcome: &Outcome)
        requires
            outcome_fits(old(self).cmd, *outcome),
            old(self).output is None,
            old(self).error is None,
        ensures
            final(self).cmd == old(self).cmd,
            opt_view(final(self).output) == cmd_output(
                old(self).cmd,
                *outcome,
                index_view(index),
            ),
            opt_view(final(self).error) == cmd_error(old(self).cmd, *outcome, index_view(index)),
            final(state).pwd@ == cmd_new_pwd(old(self).cmd, *outcome, old(state).pwd@),
            final(state).stdout@ == old(state).stdout@,
            final(state).stderr@ == old(state).stderr@,
    {
        match &self.cmd {
            CommandType::Unknown(name) => {
                let msg = concat2(trim_end(name.as_str()), ": command not found\n");
                self.error = Option::Some(msg);
            },
            CommandType::Exit(_) => {},
            CommandType::Echo(t) => {
                let msg = concat2(t.as_str(), "\n");
                self.output = Option::Some(msg);
            },
            CommandType::Type(t) => {
                if is_builtin(trim_start(t.as_str())) {
                    let msg = concat2(t.as_str(), " is a shell builtin\n");
                    self.output = Option::Some(msg);
                } else {
                    match CommandType::find_ext_command(t.as_str(), index) {
                        Option::Some(entry) => {
                            let mut msg = t.clone();
                            msg.append(" is ");
                            msg.append(entry.path.as_str());
                            msg.append("\n");
                            self.output = Option::Some(msg);
                        },
                        Option::None => {
                            let msg = concat2(t.as_str(), ": not found\n");
                            self.error = Option::Some(msg);
                        },
                    }
                }
            },
            CommandType::Pwd(p) => {
                let msg = concat2(p.as_str(), "\n");
                self.output = Option::Some(msg);
            },
            CommandType::Cd(p) => {
                match outcome {
                    Outcome::PathExists(exists) => {
                        if *exists {
                            state.set_pwd(p.as_str());
                        } else {
                            let mut msg = "cd: ".to_owned();
                            msg.append(p.as_str());
                            msg.append(": No such file or directory\n");
                            self.error = Option::Some(msg);
                        }
                    },
                    Outcome::PathCheckFailed(e) => {
                        let msg = concat2(e.as_str(), "\n");
                        self.error = Option::Some(msg);
                    },
                    _ => unreached(),
                }
            },
            CommandType::External { .. } => {
                match outcome {
                    Outcome::Captured { stdout, stderr } => {
                        self.output = Option::Some(stdout.clone());
                        self.error = Option::Some(stderr.clone());
                    },
                    Outcome::SpawnFailed(m) => {
                        let msg = concat2(m.as_str(), "\n");
                        self.error = Option::Some(msg);
                    },
                    _ => unreached(),
                }
            },
        }
    }
}

// ---------------------------------------------------------------------------
// Precedence of builtins
// ---------------------------------------------------------------------------

/// Law: `type` prefers builtins.  When the queried name (after leading
/// whitespace) is a builtin, the report says it is a shell builtin — whatever
/// the executable index holds, so a name that is also on the search path is
/// still reported as a builtin — and no error is produced.
pub proof fn lemma_type_builtin_precedence(
    t: String,
    oc: Outcome,
    ix: Seq<(Seq<char>, Seq<char>)>,
)
    requires
        is_builtin_name(spec_trim_start(t@)),
    ensures
        cmd_output(CommandType::Type(t), oc, ix) == Option::Some(t@ + " is a shell builtin\n"@),
        cmd_error(CommandType::Type(t), oc, ix) is None,
{
}

} // verus!
