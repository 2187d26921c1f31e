use vstd::prelude::*;

use crate::args::ArgType;
use crate::text::{push_char, words_view};

verus! {

/// The tokenizer as a state machine over the remaining input.  `cur` holds
/// the fragments already committed to the current word, `started` says
/// whether such a fragment exists (a closed pair of quotes commits an empty
/// fragment, so a word may be empty), and `pend` holds the fragment read
/// since the last opening quote — it is committed by the closing quote and
/// silently dropped if the input ends first.
pub open spec fn lex(
    s: Seq<char>,
    mode: ArgType,
    cur: Seq<char>,
    started: bool,
    pend: Seq<char>,
    acc: Seq<Seq<char>>,
) -> Seq<Seq<char>>
    decreases s.len(),
{
    if s.len() == 0 {
        if started {
            acc.push(cur)
        } else {
            acc
        }
    } else {
        let c = s[0];
        let rest = s.skip(1);
        match mode {
            ArgType::Plain => {
                if c == ' ' {
                    if started {
                        lex(rest, ArgType::Plain, Seq::empty(), false, Seq::empty(), acc.push(cur))
                    } else {
                        lex(rest, ArgType::Plain, Seq::empty(), false, Seq::empty(), acc)
                    }
                } else if c == '\'' {
                    lex(rest, ArgType::SingleQuoted, cur, started, Seq::empty(), acc)
                } else if c == '"' {
                    lex(rest, ArgType::DoubleQuoted, cur, started, Seq::empty(), acc)
                } else if c == '\\' {
                    lex(rest, ArgType::Backslash, cur, started, Seq::empty(), acc)
                } else {
                    lex(rest, ArgType::Plain, cur.push(c), true, Seq::empty(), acc)
                }
            },
            ArgType::Backslash => lex(rest, ArgType::Plain, cur.push(c), true, Seq::empty(), acc),
            ArgType::SingleQuoted => {
                if c == '\'' {
                    lex(rest, ArgType::Plain, cur + pend, true, Seq::empty(), acc)
                } else {
                    lex(rest, ArgType::SingleQuoted, cur, started, pend.push(c), acc)
                }
            },
            ArgType::DoubleQuoted => {
                if c == '"' {
                    lex(rest, ArgType::Plain, cur + pend, true, Seq::empty(), acc)
                } else if c == '\\' {
                    if s.len() == 1 {
                        lex(rest, ArgType::DoubleQuoted, cur, started, pend, acc)
                    } else {
                        let e = s[1];
                        let rest2 = s.skip(2);
                        if e == '\\' || e == '$' || e == '"' {
                            lex(rest2, ArgType::DoubleQuoted, cur, started, pend.push(e), acc)
                        } else {
                            lex(
                                rest2,
                                ArgType::DoubleQuoted,
                                cur,
                                started,
                                pend.push('\\').push(e),
                                acc,
                            )
                        }
                    }
                } else {
                    lex(rest, ArgType::DoubleQuoted, cur, started, pend.push(c), acc)
                }
            },
        }
    }
}

/// The words of a line: the tokenizer run from its starting state.
pub open spec fn tokenize(s: Seq<char>) -> Seq<Seq<char>> {
    lex(s, ArgType::Plain, Seq::empty(), false, Seq::empty(), Seq::empty())
}

pub struct WordParser;

impl WordParser {
    /// Splits a line of input into words, honouring single quotes (verbatim),
    /// double quotes (verbatim but for `\\`, `\$`, `\"` escapes), unquoted
    /// backslash escapes, and unquoted spaces as word boundaries.  Adjacent
    /// fragments concatenate into one word; an unterminated quote at the end
    /// of input silently drops the open fragment.
    pub fn split(text: &str) -> (words: Vec<String>)
        ensures
            words_view(words@) == tokenize(text@),
    {
        let n = text.unicode_len();
        let mut words: Vec<String> = Vec::new();
        let mut cur = String::new();
        let mut pend = String::new();
        let mut started = false;
        let mut mode = ArgType::Plain;
        let mut i: usize = 0;
        proof {
            assert(text@.skip(0) =~= text@);
            assert(words_view(words@) =~= Seq::<Seq<char>>::empty());
        }
        while i < n
            invariant
                i <= n,
                n == text@.len(),
                (mode == ArgType::Plain || mode == ArgType::Backslash) ==> pend@.len() == 0,
                !started ==> cur@.len() == 0,
                tokenize(text@) == lex(
                    text@.skip(i as int),
                    mode,
                    cur@,
                    started,
                    pend@,
                    words_view(words@),
                ),
            decreases n - i,
        {
            let c = text.get_char(i);
            proof {
                assert(text@.skip(i as int)[0] == c);
                assert(text@.skip(i as int).skip(1) =~= text@.skip(i as int + 1));
                if pend@.len() == 0 {
                    assert(pend@ =~= Seq::<char>::empty());
                }
                if !started {
                    assert(cur@ =~= Seq::<char>::empty());
                }
            }
            match mode {
                ArgType::Plain => {
                    if c == ' ' {
                        if started {
                            let ghost pre = words@;
                            let ghost cur_v = cur@;
                            words.push(cur);
                            cur = String::new();
                            started = false;
                            proof {
                                assert(words_view(words@) =~= words_view(pre).push(cur_v));
                            }
                        }
                    } else if c == '\'' {
                        mode = ArgType::SingleQuoted;
                    } else if c == '"' {
                        mode = ArgType::DoubleQuoted;
                    } else if c == '\\' {
                        mode = ArgType::Backslash;
                    } else {
                        push_char(&mut cur, c);
                        started = true;
                    }
                    i += 1;
                },
                ArgType::Backslash => {
                    push_char(&mut cur, c);
                    started = true;
                    mode = ArgType::Plain;
                    i += 1;
                },
                ArgType::SingleQuoted => {
                    if c == '\'' {
                        cur.append(pend.as_str());
                        pend = String::new();
                        started = true;
                        mode = ArgType::Plain;
                    } else {
                        push_char(&mut pend, c);
                    }
                    i += 1;
                },
                ArgType::DoubleQuoted => {
                    if c == '"' {
                        cur.append(pend.as_str());
                        pend = String::new();
                        started = true;
                        mode = ArgType::Plain;
                        i += 1;
                    } else if c == '\\' {
                        if i + 1 < n {
                            let e = text.get_char(i + 1);
                            proof {
                                assert(text@.skip(i as int)[1] == e);
                                assert(text@.skip(i as int).skip(2) =~= text@.skip(i as int + 2));
                            }
                            if e == '\\' || e == '$' || e == '"' {
                                push_char(&mut pend, e);
                            } else {
                                push_char(&mut pend, '\\');
                                push_char(&mut pend, e);
                            }
                            i += 2;
                        } else {
                            i += 1;
                        }
                    } else {
                        push_char(&mut pend, c);
                        i += 1;
                    }
                },
            }
        }
        proof {
            assert(text@.skip(n as int).len() == 0);
        }
        if started {
            let ghost pre = words@;
            let ghost cur_v = cur@;
            words.push(cur);
            proof {
                assert(words_view(words@) =~= words_view(pre).push(cur_v));
            }
        }
        words
    }
}

// ---------------------------------------------------------------------------
// Re-quoting a word list
// ---------------------------------------------------------------------------

/// A word wrapped in single quotes.
pub open spec fn spec_quote_word(w: Seq<char>) -> Seq<char> {
    seq!['\''] + w + seq!['\'']
}

/// The quoted words after the first, each preceded by one space.
pub open spec fn spec_quote_rest(ws: Seq<Seq<char>>) -> Seq<char>
    decreases ws.len(),
{
    if ws.len() == 0 {
        Seq::empty()
    } else {
        seq![' '] + spec_quote_word(ws[0]) + spec_quote_rest(ws.skip(1))
    }
}

/// Every word wrapped in single quotes, joined with single spaces.
pub open spec fn spec_quote_join(ws: Seq<Seq<char>>) -> Seq<char> {
    if ws.len() == 0 {
        Seq::empty()
    } else {
        spec_quote_word(ws[0]) + spec_quote_rest(ws.skip(1))
    }
}

impl WordParser {
    /// Renders a word list as one line, each word in single quotes.
    pub fn quote_join(words: &Vec<String>) -> (r: String)
        ensures
            r@ == spec_quote_join(words_view(words@)),
    {
        let ghost wv = words_view(words@);
        let mut acc = String::new();
        if words.len() == 0 {
            proof {
                assert(acc@ =~= spec_quote_join(wv));
            }
            return acc;
        }
        push_char(&mut acc, '\'');
        acc.append(words[0].as_str());
        push_char(&mut acc, '\'');
        proof {
            assert(acc@ =~= spec_quote_word(wv[0]));
        }
        let mut j: usize = 1;
        while j < words.len()
            invariant
                1 <= j <= words@.len(),
                wv == words_view(words@),
                wv.len() == words@.len(),
                spec_quote_join(wv) == acc@ + spec_quote_rest(wv.skip(j as int)),
            decreases words@.len() - j,
        {
            let ghost pre = acc@;
            push_char(&mut acc, ' ');
            push_char(&mut acc, '\'');
            acc.append(words[j].as_str());
            push_char(&mut acc, '\'');
            proof {
                assert(wv.skip(j as int)[0] == wv[j as int]);
                assert(wv.skip(j as int).skip(1) =~= wv.skip(j as int + 1));
                assert(acc@ =~= pre + (seq![' '] + spec_quote_word(wv[j as int])));
                assert(pre + (seq![' '] + spec_quote_word(wv[j as int]) + spec_quote_rest(
                    wv.skip(j as int + 1),
                )) =~= acc@ + spec_quote_rest(wv.skip(j as int + 1)));
            }
            j += 1;
        }
        proof {
            assert(wv.skip(j as int).len() == 0);
            assert(acc@ + spec_quote_rest(wv.skip(j as int)) =~= acc@);
        }
        acc
    }
}

// ---------------------------------------------------------------------------
// The round trip of re-quoting
// ---------------------------------------------------------------------------

/// Inside single quotes, a run of quote-free characters is copied verbatim
/// into the pending fragment.
proof fn lemma_lex_single_verbatim(
    w: Seq<char>,
    post: Seq<char>,
    cur: Seq<char>,
    started: bool,
    pend: Seq<char>,
    acc: Seq<Seq<char>>,
)
    requires
        !w.contains('\''),
    ensures
        lex(w + post, ArgType::SingleQuoted, cur, started, pend, acc) == lex(
            post,
            ArgType::SingleQuoted,
            cur,
            started,
            pend + w,
            acc,
        ),
    decreases w.len(),
{
    if w.len() == 0 {
        assert(w + post =~= post);
        assert(pend + w =~= pend);
    } else {
        let c = w[0];
        if c == '\'' {
            assert(w.contains('\''));
        }
        assert((w + post)[0] == c);
        assert((w + post).skip(1) =~= w.skip(1) + post);
        assert(!w.skip(1).contains('\'')) by {
            if w.skip(1).contains('\'') {
                let i = choose|i: int| 0 <= i < w.skip(1).len() && w.skip(1)[i] == '\'';
                assert(w[i + 1] == '\'');
                assert(w.contains('\''));
            }
        }
        lemma_lex_single_verbatim(w.skip(1), post, cur, started, pend.push(c), acc);
        assert(pend.push(c) + w.skip(1) =~= pend + w);
    }
}

proof fn lemma_requote(ws: Seq<Seq<char>>, acc: Seq<Seq<char>>)
    requires
        forall|k: int| 0 <= k < ws.len() ==> !(#[trigger] ws[k]).contains('\''),
    ensures
        lex(spec_quote_join(ws), ArgType::Plain, Seq::empty(), false, Seq::empty(), acc) == acc
            + ws,
    decreases ws.len(),
{
    if ws.len() == 0 {
        assert(spec_quote_join(ws).len() == 0);
        assert(acc + ws =~= acc);
    } else {
        let w = ws[0];
        let tail = spec_quote_rest(ws.skip(1));
        let full = spec_quote_join(ws);
        let inner = seq!['\''] + tail;
        assert(full[0] == '\'');
        assert(full.skip(1) =~= w + inner);
        assert(lex(full, ArgType::Plain, Seq::empty(), false, Seq::empty(), acc) == lex(
            w + inner,
            ArgType::SingleQuoted,
            Seq::empty(),
            false,
            Seq::empty(),
            acc,
        ));
        assert(!w.contains('\''));
        lemma_lex_single_verbatim(w, inner, Seq::empty(), false, Seq::empty(), acc);
        assert(Seq::<char>::empty() + w =~= w);
        assert(inner[0] == '\'');
        assert(inner.skip(1) =~= tail);
        assert(lex(inner, ArgType::SingleQuoted, Seq::empty(), false, w, acc) == lex(
            tail,
            ArgType::Plain,
            w,
            true,
            Seq::empty(),
            acc,
        ));
        if ws.len() == 1 {
            assert(ws.skip(1).len() == 0);
            assert(tail.len() == 0);
            assert(lex(tail, ArgType::Plain, w, true, Seq::empty(), acc) == acc.push(w));
            assert(acc.push(w) =~= acc + ws);
        } else {
            assert(ws.skip(1).len() > 0);
            assert(tail == seq![' '] + spec_quote_word(ws.skip(1)[0]) + spec_quote_rest(
                ws.skip(1).skip(1),
            ));
            assert(tail[0] == ' ');
            assert(tail.skip(1) =~= spec_quote_word(ws.skip(1)[0]) + spec_quote_rest(
                ws.skip(1).skip(1),
            ));
            assert(tail.skip(1) =~= spec_quote_join(ws.skip(1)));
            assert(lex(tail, ArgType::Plain, w, true, Seq::empty(), acc) == lex(
                tail.skip(1),
                ArgType::Plain,
                Seq::empty(),
                false,
                Seq::empty(),
                acc.push(w),
            ));
            assert(forall|k: int|
                0 <= k < ws.skip(1).len() ==> !(#[trigger] ws.skip(1)[k]).contains('\'')) by {
                assert(forall|k: int| 0 <= k < ws.skip(1).len() ==> ws.skip(1)[k] == ws[k + 1]);
            }
            lemma_requote(ws.skip(1), acc.push(w));
            assert(acc.push(w) + ws.skip(1) =~= acc + ws);
        }
    }
}

/// Law: wrapping each word of a sequence in single quotes, joining the
/// results with single spaces, and tokenizing that line gives back exactly
/// the original sequence — provided no word itself contains a single-quote
/// character.
pub proof fn lemma_requote_round_trip(ws: Seq<Seq<char>>)
    requires
        forall|k: int| 0 <= k < ws.len() ==> !(#[trigger] ws[k]).contains('\''),
    ensures
        tokenize(spec_quote_join(ws)) == ws,
{
    lemma_requote(ws, Seq::empty());
    assert(Seq::<Seq<char>>::empty() + ws =~= ws);
}

} // verus!
