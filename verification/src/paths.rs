use vstd::prelude::*;

use crate::text::{
    join_with, push_char, spec_join, spec_split, spec_trim_end, split_char, str_eq, trim_end,
    words_view,
};

verus! {

// ---------------------------------------------------------------------------
// Normalization of a path given as its slash-separated parts
// ---------------------------------------------------------------------------

/// One step of normalization: `.` is dropped, `..` pops the last kept part
/// (but never past the root marker), an empty part is kept only as the very
/// first (the absolute-root marker), and anything else is kept.
pub open spec fn norm_step(acc: Seq<Seq<char>>, part: Seq<char>) -> Seq<Seq<char>> {
    if part == "."@ {
        acc
    } else if part == ".."@ {
        if acc.len() > 1 {
            acc.drop_last()
        } else {
            acc
        }
    } else if part.len() == 0 {
        if acc.len() == 0 {
            acc.push(part)
        } else {
            acc
        }
    } else {
        acc.push(part)
    }
}

pub open spec fn norm_parts(parts: Seq<Seq<char>>) -> Seq<Seq<char>>
    decreases parts.len(),
{
    if parts.len() == 0 {
        Seq::empty()
    } else {
        norm_step(norm_parts(parts.drop_last()), parts.last())
    }
}

/// The kept parts rejoined: a path that normalized away to nothing (or to the
/// bare root marker) becomes `/`.
pub open spec fn spec_normalize_parts(parts: Seq<Seq<char>>) -> Seq<char> {
    if norm_parts(parts).len() > 1 {
        spec_join(norm_parts(parts), '/')
    } else {
        seq!['/']
    }
}

/// Normalizes a path given as its slash-separated parts.
pub fn normalize_parts(parts: &Vec<String>) -> (r: String)
    ensures
        r@ == spec_normalize_parts(words_view(parts@)),
{
    let ghost pv = words_view(parts@);
    let mut resolved: Vec<String> = Vec::new();
    let mut i: usize = 0;
    proof {
        assert(pv.take(0).len() == 0);
        assert(words_view(resolved@) =~= norm_parts(pv.take(0)));
    }
    while i < parts.len()
        invariant
            i <= parts@.len(),
            pv == words_view(parts@),
            pv.len() == parts@.len(),
            words_view(resolved@) == norm_parts(pv.take(i as int)),
        decreases parts@.len() - i,
    {
        proof {
            assert(pv.take(i as int + 1).drop_last() =~= pv.take(i as int));
            assert(pv.take(i as int + 1).last() == pv[i as int]);
        }
        let ghost pre = resolved@;
        let part = &parts[i];
        if str_eq(part.as_str(), ".") {
        } else if str_eq(part.as_str(), "..") {
            if resolved.len() > 1 {
                resolved.pop();
                proof {
                    assert(words_view(resolved@) =~= words_view(pre).drop_last());
                }
            }
        } else if part.as_str().is_empty() {
            if resolved.len() == 0 {
                resolved.push(part.clone());
                proof {
                    assert(words_view(resolved@) =~= words_view(pre).push(pv[i as int]));
                }
            }
        } else {
            resolved.push(part.clone());
            proof {
                assert(words_view(resolved@) =~= words_view(pre).push(pv[i as int]));
            }
        }
        i += 1;
    }
    proof {
        assert(pv.take(parts@.len() as int) =~= pv);
    }
    if resolved.len() > 1 {
        let r = join_with(&resolved, 0, '/');
        proof {
            assert(resolved@.skip(0) =~= resolved@);
        }
        r
    } else {
        let mut r = String::new();
        push_char(&mut r, '/');
        proof {
            assert(r@ =~= seq!['/']);
        }
        r
    }
}

/// Law: normalization resolves every dot segment — no `.` or `..` part is
/// ever kept, whatever the input parts were.
pub proof fn lemma_norm_parts_clean(parts: Seq<Seq<char>>)
    ensures
        forall|k: int|
            0 <= k < norm_parts(parts).len() ==> #[trigger] norm_parts(parts)[k] != "."@
                && norm_parts(parts)[k] != ".."@,
    decreases parts.len(),
{
    reveal_strlit(".");
    reveal_strlit("..");
    assert("."@.len() == 1);
    assert(".."@.len() == 2);
    if parts.len() > 0 {
        lemma_norm_parts_clean(parts.drop_last());
        let acc = norm_parts(parts.drop_last());
        let part = parts.last();
        assert(norm_parts(parts) == norm_step(acc, part));
        if part == "."@ {
        } else if part == ".."@ {
        } else if part.len() == 0 {
            assert(part != "."@ && part != ".."@);
        } else {
        }
    }
}

// ---------------------------------------------------------------------------
// The target of a change of directory
// ---------------------------------------------------------------------------

/// The raw path the change-of-directory argument stands for: an absent (or
/// empty) argument means the home directory; otherwise trailing whitespace is
/// removed.
pub open spec fn spec_cd_raw(arg: Seq<char>, home: Seq<char>) -> Seq<char> {
    if arg.len() == 0 {
        home
    } else {
        spec_trim_end(arg)
    }
}

/// The slash-separated parts the raw path expands to.  A leading `~` is
/// replaced by the home directory, with the two leading characters dropped
/// where the second is ASCII (so `~/rest` contributes `rest`); a leading `/`
/// is absolute; anything else is taken relative to the working directory.
pub open spec fn spec_cd_parts(path: Seq<char>, home: Seq<char>, pwd: Seq<char>) -> Seq<
    Seq<char>,
> {
    if path.len() == 0 {
        Seq::empty()
    } else if path[0] == '~' {
        if path.len() == 1 {
            spec_split(home, '/')
        } else if path[1] as u32 <= 127 {
            spec_split(home, '/') + spec_split(path.skip(2), '/')
        } else {
            spec_split(home, '/')
        }
    } else if path[0] == '/' {
        spec_split(path, '/')
    } else {
        spec_split(pwd, '/') + spec_split(path, '/')
    }
}

/// The normalized directory a `cd` argument designates.
pub open spec fn spec_cd_target(arg: Seq<char>, home: Seq<char>, pwd: Seq<char>) -> Seq<char> {
    spec_normalize_parts(spec_cd_parts(spec_cd_raw(arg, home), home, pwd))
}

/// Resolves a `cd` argument against the home and working directories.
pub fn resolve_cd_target(arg: &str, home: &str, pwd: &str) -> (r: String)
    requires
        spec_cd_raw(arg@, home@).len() > 0,
    ensures
        r@ == spec_cd_target(arg@, home@, pwd@),
{
    let path: &str = if arg.unicode_len() == 0 {
        home
    } else {
        trim_end(arg)
    };
    proof {
        assert(path@ == spec_cd_raw(arg@, home@));
    }
    let n = path.unicode_len();
    let c0 = path.get_char(0);
    let mut parts: Vec<String>;
    if c0 == '~' {
        parts = split_char(home, '/');
        if n >= 2 {
            let c1 = path.get_char(1);
            if (c1 as u32) <= 127 {
                let rest = path.substring_char(2, n);
                proof {
                    assert(rest@ =~= path@.skip(2));
                }
                let mut tail_parts = split_char(rest, '/');
                let ghost a = words_view(parts@);
                let ghost b = words_view(tail_parts@);
                parts.append(&mut tail_parts);
                proof {
                    assert(words_view(parts@) =~= a + b);
                }
            }
        }
    } else if c0 == '/' {
        parts = split_char(path, '/');
    } else {
        parts = split_char(pwd, '/');
        let mut tail_parts = split_char(path, '/');
        let ghost a = words_view(parts@);
        let ghost b = words_view(tail_parts@);
        parts.append(&mut tail_parts);
        proof {
            assert(words_view(parts@) =~= a + b);
        }
    }
    proof {
        assert(words_view(parts@) == spec_cd_parts(path@, home@, pwd@));
    }
    normalize_parts(&parts)
}

} // verus!
