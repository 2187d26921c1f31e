use vstd::prelude::*;

use crate::command::{
    cmd_error, cmd_new_pwd, cmd_output, cmd_resolves, index_view, opt_view, outcome_fits,
    seg_parse_ok, Command, CommandType, ExecutableIndex, Outcome,
};
use crate::state::State;
use crate::text::{
    digits_val, is_ascii_digit, is_digit_char, join_with, parse_i32, str_eq, trim_end, words_view,
};

verus! {

// ---------------------------------------------------------------------------
// Redirection operators
// ---------------------------------------------------------------------------

/// Which stream a redirection captures.
#[derive(Clone, Copy, PartialEq, Eq, Debug, Structural)]
pub enum OutputType {
    StdOut,
    StdErr,
}

/// The redirection a word stands for: `>` truncates, `>>` appends, `<` reads.
#[derive(Clone, Copy, PartialEq, Eq, Debug, Structural)]
pub enum RedirectType {
    Output(OutputType),
    Input,
    Append(OutputType),
}

/// A word that is no redirection operator.
#[derive(Clone, Copy, PartialEq, Eq, Debug, Structural)]
pub struct OperatorError;

/// The first index at or after `i` holding no decimal digit.
pub open spec fn digit_end(s: Seq<char>, i: int) -> int
    decreases s.len() - i,
{
    if 0 <= i < s.len() && is_ascii_digit(s[i]) {
        digit_end(s, i + 1)
    } else {
        i
    }
}

proof fn lemma_digit_end(s: Seq<char>, i: int)
    requires
        0 <= i <= s.len(),
    ensures
        i <= digit_end(s, i) <= s.len(),
        forall|k: int| i <= k < digit_end(s, i) ==> is_ascii_digit(#[trigger] s[k]),
        digit_end(s, i) < s.len() ==> !is_ascii_digit(s[digit_end(s, i)]),
    decreases s.len() - i,
{
    if i < s.len() && is_ascii_digit(s[i]) {
        lemma_digit_end(s, i + 1);
    }
}

/// The stream a word's digit prefix selects.  No prefix, or one too large
/// for a 32-bit count, falls back to the output stream; `2` selects the
/// error stream.  (A prefix with any other value is outside `op_word_ok`.)
pub open spec fn spec_stream_sel(w: Seq<char>) -> OutputType {
    let k = digit_end(w, 0);
    if k > 0 && digits_val(w.take(k)) <= 4294967295 && digits_val(w.take(k)) == 2 {
        OutputType::StdErr
    } else {
        OutputType::StdOut
    }
}

/// The redirection a word stands for, if any: an optional run of digits,
/// then `<`, `>` or `>>`; whatever follows those characters is ignored.
pub open spec fn redirect_class(w: Seq<char>) -> Option<RedirectType> {
    let k = digit_end(w, 0);
    if k >= w.len() {
        Option::<RedirectType>::None
    } else if w[k] == '<' {
        Option::Some(RedirectType::Input)
    } else if w[k] == '>' {
        if k + 1 < w.len() && w[k + 1] == '>' {
            Option::Some(RedirectType::Append(spec_stream_sel(w)))
        } else {
            Option::Some(RedirectType::Output(spec_stream_sel(w)))
        }
    } else {
        Option::<RedirectType>::None
    }
}

/// The words on which classification is defined: a digit prefix in front of
/// a redirection character must count `1` (output) or `2` (error); any other
/// in-range value names a stream the interpreter does not have.
pub open spec fn op_word_ok(w: Seq<char>) -> bool {
    let k = digit_end(w, 0);
    !(k > 0 && k < w.len() && (w[k] == '<' || w[k] == '>') && digits_val(w.take(k))
        <= 4294967295 && digits_val(w.take(k)) != 1 && digits_val(w.take(k)) != 2)
}

/// The length of the word's digit prefix.
fn digit_prefix(w: &str) -> (k: usize)
    ensures
        k as int == digit_end(w@, 0),
        k <= w@.len(),
        forall|t: int| 0 <= t < k ==> is_ascii_digit(#[trigger] w@[t]),
        k < w@.len() ==> !is_ascii_digit(w@[k as int]),
{
    let n = w.unicode_len();
    let mut k: usize = 0;
    while k < n && is_digit_char(w.get_char(k))
        invariant
            k <= n,
            n == w@.len(),
            digit_end(w@, 0) == digit_end(w@, k as int),
        decreases n - k,
    {
        k += 1;
    }
    proof {
        assert(digit_end(w@, 0) == k as int);
        lemma_digit_end(w@, 0);
    }
    k
}

/// The value of the word's digit prefix; the flag reports a value too large
/// for 32 bits.
fn digit_prefix_value(w: &str, k: usize) -> (r: (bool, u64))
    requires
        k as int == digit_end(w@, 0),
        k <= w@.len(),
    ensures
        !r.0 ==> r.1 == digits_val(w@.take(k as int)) && r.1 <= 4294967295,
        r.0 ==> digits_val(w@.take(k as int)) > 4294967295,
{
    let ghost d = w@.take(k as int);
    proof {
        lemma_digit_end(w@, 0);
        assert(forall|t: int| 0 <= t < d.len() ==> is_ascii_digit(#[trigger] d[t]));
        assert(d.take(0).len() == 0);
    }
    let mut acc: u64 = 0;
    let mut over = false;
    let mut j: usize = 0;
    while j < k
        invariant
            j <= k,
            k <= w@.len(),
            k as int == digit_end(w@, 0),
            d == w@.take(k as int),
            d.len() == k,
            forall|t: int| 0 <= t < d.len() ==> is_ascii_digit(#[trigger] d[t]),
            !over ==> acc == digits_val(d.take(j as int)) && acc <= 4294967295,
            over ==> digits_val(d.take(j as int)) > 4294967295,
        decreases k - j,
    {
        let c = w.get_char(j);
        proof {
            assert(d[j as int] == c);
            assert(d.take(j as int + 1).drop_last() =~= d.take(j as int));
            assert(d.take(j as int + 1).last() == d[j as int]);
            crate::text::lemma_digits_val_nonneg(d.take(j as int));
        }
        if over {
        } else {
            let dv: u64 = (c as u32 as u64) - 48;
            let acc2: u64 = acc * 10 + dv;
            if acc2 > 4294967295 {
                over = true;
            } else {
                acc = acc2;
            }
        }
        j += 1;
    }
    proof {
        assert(d.take(k as int) =~= d);
    }
    (over, acc)
}

/// Classifies one word.
fn classify_op(w: &str) -> (r: Option<RedirectType>)
    requires
        op_word_ok(w@),
    ensures
        r == redirect_class(w@),
{
    let n = w.unicode_len();
    let k = digit_prefix(w);
    if k == n {
        return Option::None;
    }
    let c0 = w.get_char(k);
    if c0 != '<' && c0 != '>' {
        return Option::None;
    }
    let mut sel = OutputType::StdOut;
    if k > 0 {
        let (over, value) = digit_prefix_value(w, k);
        if !over {
            if value == 2 {
                sel = OutputType::StdErr;
            } else if value == 1 {
                sel = OutputType::StdOut;
            } else {
                // excluded by `op_word_ok`: no other in-range prefix value
                // stands in front of a redirection character
                unreached::<()>()
            }
        }
    }
    proof {
        assert(sel == spec_stream_sel(w@));
    }
    if c0 == '<' {
        Option::Some(RedirectType::Input)
    } else {
        if k + 1 < n && w.get_char(k + 1) == '>' {
            Option::Some(RedirectType::Append(sel))
        } else {
            Option::Some(RedirectType::Output(sel))
        }
    }
}

/// Whether the word avoids the unsupported digit prefixes: in front of a
/// redirection character only `1` and `2` name streams the interpreter has.
pub fn word_ok(w: &str) -> (b: bool)
    ensures
        b == op_word_ok(w@),
{
    let n = w.unicode_len();
    let k = digit_prefix(w);
    if k == 0 || k == n {
        return true;
    }
    let c0 = w.get_char(k);
    if c0 != '<' && c0 != '>' {
        return true;
    }
    let (over, value) = digit_prefix_value(w, k);
    if over {
        return true;
    }
    value == 1 || value == 2
}

impl RedirectType {
    /// Reads a word as a redirection operator; a word that is none is an
    /// error (and is then kept as a plain argument by the caller).
    pub fn from_str(op: &str) -> (r: Result<RedirectType, OperatorError>)
        requires
            op_word_ok(op@),
        ensures
            match redirect_class(op@) {
                Option::Some(rt) => r matches Result::Ok(v) && v == rt,
                Option::None => r matches Result::Err(_),
            },
    {
        match classify_op(op) {
            Option::Some(rt) => Result::Ok(rt),
            Option::None => Result::Err(OperatorError),
        }
    }
}

// ---------------------------------------------------------------------------
// Scanning a word list into segments
// ---------------------------------------------------------------------------

/// One command segment: its words and, for a redirected segment, the
/// redirection with the path word that followed the operator.
pub struct SegSpec {
    pub words: Seq<Seq<char>>,
    pub redir: Option<(RedirectType, Seq<char>)>,
}

/// The scan of a word list: plain words gather in `buf`; an operator word
/// closes the gathered segment, takes the next word as the target path and
/// emits a redirected segment; what remains at the end emits a plain one.
/// `None` marks the lines the interpreter cannot proceed on: an operator
/// word outside `op_word_ok`, an operator with no command before it, or one
/// with no path after it.
pub open spec fn scan(
    words: Seq<Seq<char>>,
    i: int,
    buf: Seq<Seq<char>>,
    acc: Seq<SegSpec>,
) -> Option<Seq<SegSpec>>
    decreases words.len() - i,
{
    if i < 0 || i >= words.len() {
        Option::Some(
            if buf.len() > 0 {
                acc.push(SegSpec { words: buf, redir: Option::None })
            } else {
                acc
            },
        )
    } else {
        let w = words[i];
        if !op_word_ok(w) {
            Option::<Seq<SegSpec>>::None
        } else {
            match redirect_class(w) {
                Option::Some(rt) => if buf.len() == 0 {
                    Option::<Seq<SegSpec>>::None
                } else if i + 1 >= words.len() {
                    Option::<Seq<SegSpec>>::None
                } else {
                    scan(
                        words,
                        i + 2,
                        Seq::empty(),
                        acc.push(SegSpec { words: buf, redir: Option::Some((rt, words[i + 1])) }),
                    )
                },
                Option::None => scan(words, i + 1, buf.push(w), acc),
            }
        }
    }
}

/// The lines a session can proceed on: the scan succeeds and every segment
/// satisfies the resolver's conditions.
pub open spec fn queue_ok(words: Seq<Seq<char>>, home: Seq<char>) -> bool {
    match scan(words, 0, Seq::empty(), Seq::empty()) {
        Option::Some(segs) => forall|j: int|
            0 <= j < segs.len() ==> seg_parse_ok((#[trigger] segs[j]).words, home),
        Option::None => false,
    }
}

/// Segments already emitted are a prefix of whatever the scan returns.
proof fn lemma_scan_prefix(
    words: Seq<Seq<char>>,
    i: int,
    buf: Seq<Seq<char>>,
    acc: Seq<SegSpec>,
    segs: Seq<SegSpec>,
)
    requires
        0 <= i,
        scan(words, i, buf, acc) == Option::Some(segs),
    ensures
        acc.len() <= segs.len(),
        segs.take(acc.len() as int) == acc,
    decreases words.len() - i + 1,
{
    if i >= words.len() {
        if buf.len() > 0 {
            assert(segs == acc.push(SegSpec { words: buf, redir: Option::None }));
            assert(segs.take(acc.len() as int) =~= acc);
        } else {
            assert(segs == acc);
            assert(segs.take(acc.len() as int) =~= acc);
        }
    } else {
        let w = words[i];
        match redirect_class(w) {
            Option::Some(rt) => {
                let acc2 = acc.push(
                    SegSpec { words: buf, redir: Option::Some((rt, words[i + 1])) },
                );
                lemma_scan_prefix(words, i + 2, Seq::empty(), acc2, segs);
                assert(segs.take(acc2.len() as int) == acc2);
                assert(segs.take(acc.len() as int) =~= acc) by {
                    assert(forall|t: int|
                        0 <= t < acc.len() ==> segs.take(acc2.len() as int)[t] == #[trigger] acc2[t]);
                }
            },
            Option::None => {
                lemma_scan_prefix(words, i + 1, buf.push(w), acc, segs);
            },
        }
    }
}

// ---------------------------------------------------------------------------
// Operators: a segment with its optional redirection
// ---------------------------------------------------------------------------

/// A command whose selected stream is written into a file instead of being
/// forwarded.
pub struct Redirect {
    pub command: Command,
    pub r_type: RedirectType,
    pub path: String,
}

/// One entry of a parsed line: a plain command, or one bound to a
/// redirection.
pub enum Operators {
    Pure(Command),
    Redirect(Redirect),
}

/// One pending write into a redirection target, handed to the surrounding
/// program to perform: truncate-or-create, or append-or-create.
pub struct FileWrite {
    pub path: String,
    pub append: bool,
    pub content: String,
}

pub open spec fn op_command(op: Operators) -> Command {
    match op {
        Operators::Pure(c) => c,
        Operators::Redirect(rd) => rd.command,
    }
}

/// An operator holds the given segment's command, not yet executed.
pub open spec fn operator_matches(
    op: Operators,
    seg: SegSpec,
    pwd: Seq<char>,
    home: Seq<char>,
    ix: Seq<(Seq<char>, Seq<char>)>,
) -> bool {
    match seg.redir {
        Option::None => op matches Operators::Pure(c) && c.output is None && c.error is None
            && cmd_resolves(seg.words, pwd, home, ix, c.cmd),
        Option::Some((rt, path)) => op matches Operators::Redirect(rd) && rd.r_type == rt
            && rd.path@ == path && rd.command.output is None && rd.command.error is None
            && cmd_resolves(seg.words, pwd, home, ix, rd.command.cmd),
    }
}

impl Operators {
    /// Scans a tokenized line into its operators: words gather into
    /// segments, each redirection operator word binds the gathered segment
    /// to the path word after it, and each segment's command is resolved
    /// against the session context.
    pub fn create_queue(words: Vec<String>, state: &State, home: &str, index: &ExecutableIndex)
        -> (r: Vec<Operators>)
        requires
            queue_ok(words_view(words@), home@),
        ensures
            ({
                let sr = scan(words_view(words@), 0, Seq::empty(), Seq::empty());
                sr matches Option::Some(segs) && r@.len() == segs.len() && forall|j: int|
                    0 <= j < segs.len() ==> operator_matches(
                        #[trigger] r@[j],
                        segs[j],
                        state.pwd@,
                        home@,
                        index_view(index),
                    )
            }),
    {
        let ghost wv = words_view(words@);
        let ghost segs0 = scan(wv, 0, Seq::empty(), Seq::empty())->0;
        proof {
            assert(scan(wv, 0, Seq::empty(), Seq::empty()) == Option::Some(segs0));
        }
        let mut ops: Vec<Operators> = Vec::new();
        let mut buf: Vec<String> = Vec::new();
        let mut i: usize = 0;
        let ghost mut seg_acc: Seq<SegSpec> = Seq::empty();
        proof {
            assert(words_view(buf@) =~= Seq::<Seq<char>>::empty());
        }
        while i < words.len()
            invariant
                i <= words@.len(),
                wv == words_view(words@),
                wv.len() == words@.len(),
                queue_ok(wv, home@),
                scan(wv, 0, Seq::empty(), Seq::empty()) == Option::Some(segs0),
                scan(wv, i as int, words_view(buf@), seg_acc) == Option::Some(segs0),
                forall|j: int|
                    0 <= j < segs0.len() ==> seg_parse_ok((#[trigger] segs0[j]).words, home@),
                ops@.len() == seg_acc.len(),
                forall|j: int|
                    0 <= j < seg_acc.len() ==> operator_matches(
                        #[trigger] ops@[j],
                        seg_acc[j],
                        state.pwd@,
                        home@,
                        index_view(index),
                    ),
            decreases words@.len() - i,
        {
            let ghost bufv = words_view(buf@);
            proof {
                assert(wv[i as int] == words@[i as int]@);
                assert(bufv.len() == buf@.len());
                assert(op_word_ok(wv[i as int])) by {
                    if !op_word_ok(wv[i as int]) {
                        assert(scan(wv, i as int, bufv, seg_acc) is None);
                    }
                }
            }
            let word = &words[i];
            match RedirectType::from_str(word.as_str()) {
                Result::Ok(rt) => {
                    proof {
                        assert(redirect_class(wv[i as int]) == Option::Some(rt));
                        if bufv.len() == 0 {
                            assert(scan(wv, i as int, bufv, seg_acc) is None);
                        }
                        if i + 1 >= wv.len() {
                            assert(scan(wv, i as int, bufv, seg_acc) is None);
                        }
                    }
                    let ghost seg = SegSpec {
                        words: bufv,
                        redir: Option::Some((rt, wv[i as int + 1])),
                    };
                    proof {
                        assert(scan(wv, i as int, bufv, seg_acc) == scan(
                            wv,
                            i as int + 2,
                            Seq::empty(),
                            seg_acc.push(seg),
                        ));
                        lemma_scan_prefix(wv, i as int + 2, Seq::empty(), seg_acc.push(seg), segs0);
                        assert(segs0.take(seg_acc.len() as int + 1)[seg_acc.len() as int]
                            == seg_acc.push(seg)[seg_acc.len() as int]);
                        assert(segs0[seg_acc.len() as int] == seg);
                        assert(seg_parse_ok(seg.words, home@));
                    }
                    let seg_words = buf;
                    buf = Vec::new();
                    let command = Command::new(CommandType::parse(seg_words, state, home, index));
                    let path_word = words[i + 1].clone();
                    let rd = Redirect { command, r_type: rt, path: path_word };
                    let ghost pre_ops = ops@;
                    ops.push(Operators::Redirect(rd));
                    proof {
                        seg_acc = seg_acc.push(seg);
                        assert(ops@.len() == pre_ops.len() + 1);
                        assert(forall|j: int|
                            0 <= j < pre_ops.len() ==> ops@[j] == #[trigger] pre_ops[j]);
                        assert(operator_matches(
                            ops@[seg_acc.len() - 1],
                            seg,
                            state.pwd@,
                            home@,
                            index_view(index),
                        ));
                        assert(words_view(buf@) =~= Seq::<Seq<char>>::empty());
                    }
                    i += 2;
                },
                Result::Err(_) => {
                    proof {
                        assert(redirect_class(wv[i as int]) is None);
                        assert(scan(wv, i as int, bufv, seg_acc) == scan(
                            wv,
                            i as int + 1,
                            bufv.push(wv[i as int]),
                            seg_acc,
                        ));
                    }
                    let ghost pre_buf = buf@;
                    buf.push(word.clone());
                    proof {
                        assert(words_view(buf@) =~= words_view(pre_buf).push(wv[i as int]));
                    }
                    i += 1;
                },
            }
        }
        let ghost bufv = words_view(buf@);
        if buf.len() > 0 {
            let ghost seg = SegSpec { words: bufv, redir: Option::None };
            proof {
                assert(bufv.len() == buf@.len());
                assert(scan(wv, i as int, bufv, seg_acc) == Option::Some(seg_acc.push(seg)));
                assert(segs0 == seg_acc.push(seg));
                assert(segs0[seg_acc.len() as int] == seg);
                assert(seg_parse_ok(seg.words, home@));
            }
            let command = Command::new(CommandType::parse(buf, state, home, index));
            let ghost pre_ops = ops@;
            ops.push(Operators::Pure(command));
            proof {
                seg_acc = seg_acc.push(seg);
                assert(forall|j: int|
                    0 <= j < pre_ops.len() ==> ops@[j] == #[trigger] pre_ops[j]);
            }
        } else {
            proof {
                assert(bufv.len() == 0);
                assert(scan(wv, i as int, bufv, seg_acc) == Option::Some(seg_acc));
                assert(segs0 == seg_acc);
            }
        }
        ops
    }
}

// ---------------------------------------------------------------------------
// Execution of operators
// ---------------------------------------------------------------------------

pub open spec fn opt_or_empty(o: Option<Seq<char>>) -> Seq<char> {
    match o {
        Option::Some(s) => s,
        Option::None => Seq::empty(),
    }
}

/// The error line reported when an input redirection is reached: the
/// operator is parsed but deliberately has no execution.
pub open spec fn input_redirect_error(path: Seq<char>) -> Seq<char> {
    path + ": input redirection is not supported\n"@
}

impl Redirect {
    /// Executes the command and splits its streams: the selected one becomes
    /// the returned file write, the other is forwarded to the session.
    fn run(
        &mut self,
        state: &mut State,
        index: &ExecutableIndex,
        outcome: &Outcome,
        sel: OutputType,
        app: bool,
    ) -> (w: FileWrite)
        requires
            outcome_fits(old(self).command.cmd, *outcome),
            old(self).command.output is None,
            old(self).command.error is None,
        ensures
            ({
                let cmd = old(self).command.cmd;
                let out = cmd_output(cmd, *outcome, index_view(index));
                let err = cmd_error(cmd, *outcome, index_view(index));
                &&& w.path@ == old(self).path@
                &&& w.append == app
                &&& w.content@ == opt_or_empty(
                    if sel == OutputType::StdOut {
                        out
                    } else {
                        err
                    },
                )
                &&& final(state).stdout@ == old(state).stdout@ + (
                if sel == OutputType::StdOut {
                    Seq::<char>::empty()
                } else {
                    opt_or_empty(out)
                })
                &&& final(state).stderr@ == old(state).stderr@ + (
                if sel == OutputType::StdOut {
                    opt_or_empty(err)
                } else {
                    Seq::<char>::empty()
                })
                &&& final(state).pwd@ == cmd_new_pwd(cmd, *outcome, old(state).pwd@)
                &&& final(self).command.cmd == cmd
                &&& opt_view(final(self).command.output) == out
                &&& opt_view(final(self).command.error) == err
                &&& final(self).path@ == old(self).path@
                &&& final(self).r_type == old(self).r_type
            }),
    {
        self.command.exec(state, index, outcome);
        let content: String = match sel {
            OutputType::StdOut => match self.command.output() {
                Option::Some(o) => o.clone(),
                Option::None => String::new(),
            },
            OutputType::StdErr => match self.command.error() {
                Option::Some(e) => e.clone(),
                Option::None => String::new(),
            },
        };
        match sel {
            OutputType::StdOut => {
                match self.command.error() {
                    Option::Some(e) => state.write_stderr(e.as_str()),
                    Option::None => {
                        proof {
                            assert(state.stderr@ + Seq::<char>::empty() =~= state.stderr@);
                        }
                    },
                }
                proof {
                    assert(state.stdout@ + Seq::<char>::empty() =~= state.stdout@);
                    assert(content@ =~= opt_or_empty(opt_view(self.command.output)));
                }
            },
            OutputType::StdErr => {
                match self.command.output() {
                    Option::Some(o) => state.write_stdout(o.as_str()),
                    Option::None => {
                        proof {
                            assert(state.stdout@ + Seq::<char>::empty() =~= state.stdout@);
                        }
                    },
                }
                proof {
                    assert(state.stderr@ + Seq::<char>::empty() =~= state.stderr@);
                    assert(content@ =~= opt_or_empty(opt_view(self.command.error)));
                }
            },
        }
        FileWrite { path: self.path.clone(), append: app, content }
    }
}

impl Operators {
    /// Executes one operator against the session.  A plain command forwards
    /// its captured streams into the session's buffers.  A redirected one
    /// forwards only the unselected stream and hands back the selected
    /// stream's text as a pending file write for the surrounding program to
    /// perform.  An input redirection runs nothing and reports one error
    /// line.
    pub fn exec(&mut self, state: &mut State, index: &ExecutableIndex, outcome: &Outcome) -> (w:
        Option<FileWrite>)
        requires
            outcome_fits(op_command(*old(self)).cmd, *outcome),
            op_command(*old(self)).output is None,
            op_command(*old(self)).error is None,
        ensures
            ({
                let cmd = op_command(*old(self)).cmd;
                let out = cmd_output(cmd, *outcome, index_view(index));
                let err = cmd_error(cmd, *outcome, index_view(index));
                match *old(self) {
                    Operators::Pure(_) => {
                        &&& w is None
                        &&& final(state).stdout@ == old(state).stdout@ + opt_or_empty(out)
                        &&& final(state).stderr@ == old(state).stderr@ + opt_or_empty(err)
                        &&& final(state).pwd@ == cmd_new_pwd(cmd, *outcome, old(state).pwd@)
                    },
                    Operators::Redirect(rd) => match rd.r_type {
                        RedirectType::Input => {
                            &&& w is None
                            &&& final(state).stdout@ == old(state).stdout@
                            &&& final(state).stderr@ == old(state).stderr@ + input_redirect_error(
                                rd.path@,
                            )
                            &&& final(state).pwd@ == old(state).pwd@
                            &&& *final(self) == *old(self)
                        },
                        RedirectType::Output(sel) => {
                            &&& w matches Option::Some(fw) && fw.path@ == rd.path@ && fw.append
                                == false && fw.content@ == opt_or_empty(
                                if sel == OutputType::StdOut {
                                    out
                                } else {
                                    err
                                },
                            )
                            &&& final(state).stdout@ == old(state).stdout@ + (
                            if sel == OutputType::StdOut {
                                Seq::<char>::empty()
                            } else {
                                opt_or_empty(out)
                            })
                            &&& final(state).stderr@ == old(state).stderr@ + (
                            if sel == OutputType::StdOut {
                                opt_or_empty(err)
                            } else {
                                Seq::<char>::empty()
                            })
                            &&& final(state).pwd@ == cmd_new_pwd(cmd, *outcome, old(state).pwd@)
                        },
                        RedirectType::Append(sel) => {
                            &&& w matches Option::Some(fw) && fw.path@ == rd.path@ && fw.append
                                == true && fw.content@ == opt_or_empty(
                                if sel == OutputType::StdOut {
                                    out
                                } else {
                                    err
                                },
                            )
                            &&& final(state).stdout@ == old(state).stdout@ + (
                            if sel == OutputType::StdOut {
                                Seq::<char>::empty()
                            } else {
                                opt_or_empty(out)
                            })
                            &&& final(state).stderr@ == old(state).stderr@ + (
                            if sel == OutputType::StdOut {
                                opt_or_empty(err)
                            } else {
                                Seq::<char>::empty()
                            })
                            &&& final(state).pwd@ == cmd_new_pwd(cmd, *outcome, old(state).pwd@)
                        },
                    },
                }
            }),
    {
        match self {
            Operators::Pure(cmd) => {
                cmd.exec(state, index, outcome);
                match cmd.output() {
                    Option::Some(o) => state.write_stdout(o.as_str()),
                    Option::None => {
                        proof {
                            assert(state.stdout@ + Seq::<char>::empty() =~= state.stdout@);
                        }
                    },
                }
                match cmd.error() {
                    Option::Some(e) => state.write_stderr(e.as_str()),
                    Option::None => {
                        proof {
                            assert(state.stderr@ + Seq::<char>::empty() =~= state.stderr@);
                        }
                    },
                }
                Option::None
            },
            Operators::Redirect(rd) => {
                match rd.r_type {
                    RedirectType::Input => {
                        let mut msg = rd.path.clone();
                        msg.append(": input redirection is not supported\n");
                        state.write_stderr(msg.as_str());
                        Option::None
                    },
                    RedirectType::Output(sel) => Option::Some(
                        rd.run(state, index, outcome, sel, false),
                    ),
                    RedirectType::Append(sel) => Option::Some(
                        rd.run(state, index, outcome, sel, true),
                    ),
                }
            },
        }
    }
}

// ---------------------------------------------------------------------------
// Checking a line before building its queue
// ---------------------------------------------------------------------------

/// Whether one segment satisfies the resolver's conditions.
fn seg_supported(seg: &Vec<String>, home: &str) -> (b: bool)
    ensures
        b == seg_parse_ok(words_view(seg@), home@),
{
    if seg.len() == 0 {
        return false;
    }
    let ghost sv = words_view(seg@);
    proof {
        reveal_strlit("exit");
        reveal_strlit("cd");
        assert("exit"@.len() == 4);
        assert("cd"@.len() == 2);
        assert("exit"@ != "cd"@);
        assert(sv.len() == seg@.len());
        assert(sv[0] == seg@[0]@);
        if seg@.len() > 1 {
            assert(sv[1] == seg@[1]@);
        }
    }
    let first = &seg[0];
    if str_eq(first.as_str(), "exit") {
        if seg.len() > 1 {
            parse_i32(seg[1].as_str()).is_some()
        } else {
            true
        }
    } else if str_eq(first.as_str(), "cd") {
        let joined = join_with(seg, 1, ' ');
        proof {
            assert(words_view(seg@.skip(1)) =~= sv.skip(1));
        }
        if joined.as_str().is_empty() {
            home.unicode_len() > 0
        } else {
            let t = trim_end(joined.as_str());
            t.unicode_len() > 0
        }
    } else {
        true
    }
}

/// Whether a tokenized line can be scanned and resolved: the check the
/// surrounding program makes before building the queue, failing as the
/// session must on an unusable line.
pub fn line_supported(words: &Vec<String>, home: &str) -> (b: bool)
    ensures
        b == queue_ok(words_view(words@), home@),
{
    let ghost wv = words_view(words@);
    let mut buf: Vec<String> = Vec::new();
    let mut i: usize = 0;
    let ghost mut seg_acc: Seq<SegSpec> = Seq::empty();
    proof {
        assert(words_view(buf@) =~= Seq::<Seq<char>>::empty());
    }
    while i < words.len()
        invariant
            i <= words@.len(),
            wv == words_view(words@),
            wv.len() == words@.len(),
            scan(wv, 0, Seq::empty(), Seq::empty()) == scan(
                wv,
                i as int,
                words_view(buf@),
                seg_acc,
            ),
            forall|j: int|
                0 <= j < seg_acc.len() ==> seg_parse_ok((#[trigger] seg_acc[j]).words, home@),
        decreases words@.len() - i,
    {
        let ghost bufv = words_view(buf@);
        proof {
            assert(wv[i as int] == words@[i as int]@);
            assert(bufv.len() == buf@.len());
        }
        let word = &words[i];
        if !word_ok(word.as_str()) {
            proof {
                assert(scan(wv, i as int, bufv, seg_acc) is None);
            }
            return false;
        }
        match RedirectType::from_str(word.as_str()) {
            Result::Ok(rt) => {
                proof {
                    assert(redirect_class(wv[i as int]) == Option::Some(rt));
                }
                if buf.len() == 0 {
                    proof {
                        assert(scan(wv, i as int, bufv, seg_acc) is None);
                    }
                    return false;
                }
                if i + 1 >= words.len() {
                    proof {
                        assert(scan(wv, i as int, bufv, seg_acc) is None);
                    }
                    return false;
                }
                let ghost seg = SegSpec { words: bufv, redir: Option::Some((rt, wv[i as int + 1])) };
                proof {
                    assert(scan(wv, i as int, bufv, seg_acc) == scan(
                        wv,
                        i as int + 2,
                        Seq::empty(),
                        seg_acc.push(seg),
                    ));
                }
                if !seg_supported(&buf, home) {
                    proof {
                        match scan(wv, 0, Seq::<Seq<char>>::empty(), Seq::<SegSpec>::empty()) {
                            Option::Some(segs) => {
                                lemma_scan_prefix(
                                    wv,
                                    i as int + 2,
                                    Seq::empty(),
                                    seg_acc.push(seg),
                                    segs,
                                );
                                assert(segs.take(seg_acc.len() as int + 1)[seg_acc.len() as int]
                                    == seg_acc.push(seg)[seg_acc.len() as int]);
                                assert(segs[seg_acc.len() as int] == seg);
                                assert(!seg_parse_ok(segs[seg_acc.len() as int].words, home@));
                            },
                            Option::None => {},
                        }
                    }
                    return false;
                }
                buf.clear();
                proof {
                    seg_acc = seg_acc.push(seg);
                    assert(words_view(buf@) =~= Seq::<Seq<char>>::empty());
                }
                i += 2;
            },
            Result::Err(_) => {
                proof {
                    assert(redirect_class(wv[i as int]) is None);
                    assert(scan(wv, i as int, bufv, seg_acc) == scan(
                        wv,
                        i as int + 1,
                        bufv.push(wv[i as int]),
                        seg_acc,
                    ));
                }
                let ghost pre_buf = buf@;
                buf.push(word.clone());
                proof {
                    assert(words_view(buf@) =~= words_view(pre_buf).push(wv[i as int]));
                }
                i += 1;
            },
        }
    }
    let ghost bufv = words_view(buf@);
    if buf.len() > 0 {
        let ghost seg = SegSpec { words: bufv, redir: Option::None };
        proof {
            assert(bufv.len() == buf@.len());
            assert(scan(wv, i as int, bufv, seg_acc) == Option::Some(seg_acc.push(seg)));
        }
        if !seg_supported(&buf, home) {
            proof {
                assert(seg_acc.push(seg)[seg_acc.len() as int] == seg);
                assert(!seg_parse_ok(seg.words, home@));
            }
            return false;
        }
        proof {
            seg_acc = seg_acc.push(seg);
            assert(scan(wv, 0, Seq::empty(), Seq::empty()) == Option::Some(seg_acc));
        }
    } else {
        proof {
            assert(bufv.len() == 0);
            assert(scan(wv, i as int, bufv, seg_acc) == Option::Some(seg_acc));
        }
    }
    true
}

} // verus!
