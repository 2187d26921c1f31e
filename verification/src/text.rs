use vstd::prelude::*;

verus! {

// ---------------------------------------------------------------------------
// Character classes
// ---------------------------------------------------------------------------

/// The whitespace characters that word trimming removes.
pub open spec fn is_ascii_space(c: char) -> bool {
    c == ' ' || c == '\t' || c == '\n' || c == '\r'
}

pub open spec fn is_ascii_digit(c: char) -> bool {
    48 <= c as u32 && c as u32 <= 57
}

pub open spec fn digit_value(c: char) -> int {
    c as u32 - 48
}

fn is_space_char(c: char) -> (r: bool)
    ensures
        r == is_ascii_space(c),
{
    c == ' ' || c == '\t' || c == '\n' || c == '\r'
}

pub fn is_digit_char(c: char) -> (r: bool)
    ensures
        r == is_ascii_digit(c),
{
    let u = c as u32;
    48 <= u && u <= 57
}

// ---------------------------------------------------------------------------
// Views of word lists
// ---------------------------------------------------------------------------

/// The mathematical value of a list of words: each string as its character
/// sequence.
pub open spec fn words_view(v: Seq<String>) -> Seq<Seq<char>> {
    v.map_values(|w: String| w@)
}

// ---------------------------------------------------------------------------
// Building strings
// ---------------------------------------------------------------------------

/// Relies on String::push: appends exactly the given character at the end.
#[verifier::external_body]
pub(crate) fn push_char(s: &mut String, c: char)
    ensures
        final(s)@ == old(s)@.push(c),
{
    s.push(c);
}

// ---------------------------------------------------------------------------
// Comparison
// ---------------------------------------------------------------------------

/// Character-for-character string equality.
pub fn str_eq(a: &str, b: &str) -> (r: bool)
    ensures
        r == (a@ == b@),
{
    let an = a.unicode_len();
    let bn = b.unicode_len();
    if an != bn {
        return false;
    }
    let mut i: usize = 0;
    while i < an
        invariant
            an == a@.len(),
            bn == b@.len(),
            an == bn,
            i <= an,
            forall|k: int| 0 <= k < i ==> a@[k] == b@[k],
        decreases an - i,
    {
        if a.get_char(i) != b.get_char(i) {
            return false;
        }
        i += 1;
    }
    proof {
        assert(a@ =~= b@);
    }
    true
}

// ---------------------------------------------------------------------------
// Trimming
// ---------------------------------------------------------------------------

pub open spec fn spec_trim_end(s: Seq<char>) -> Seq<char>
    decreases s.len(),
{
    if s.len() > 0 && is_ascii_space(s.last()) {
        spec_trim_end(s.drop_last())
    } else {
        s
    }
}

pub open spec fn spec_trim_start(s: Seq<char>) -> Seq<char>
    decreases s.len(),
{
    if s.len() > 0 && is_ascii_space(s[0]) {
        spec_trim_start(s.skip(1))
    } else {
        s
    }
}

/// Removes trailing whitespace.
pub fn trim_end<'a>(s: &'a str) -> (r: &'a str)
    ensures
        r@ == spec_trim_end(s@),
{
    let n = s.unicode_len();
    let mut k: usize = n;
    proof {
        assert(s@.take(n as int) =~= s@);
    }
    while k > 0 && is_space_char(s.get_char(k - 1))
        invariant
            k <= n,
            n == s@.len(),
            spec_trim_end(s@) == spec_trim_end(s@.take(k as int)),
        decreases k,
    {
        proof {
            assert(s@.take(k as int).drop_last() =~= s@.take(k as int - 1));
            assert(s@.take(k as int).last() == s@[k as int - 1]);
        }
        k -= 1;
    }
    proof {
        if k == 0 {
            assert(s@.take(0).len() == 0);
        }
        assert(spec_trim_end(s@.take(k as int)) == s@.take(k as int));
    }
    s.substring_char(0, k)
}

/// Removes leading whitespace.
pub fn trim_start<'a>(s: &'a str) -> (r: &'a str)
    ensures
        r@ == spec_trim_start(s@),
{
    let n = s.unicode_len();
    let mut k: usize = 0;
    proof {
        assert(s@.skip(0) =~= s@);
    }
    while k < n && is_space_char(s.get_char(k))
        invariant
            k <= n,
            n == s@.len(),
            spec_trim_start(s@) == spec_trim_start(s@.skip(k as int)),
        decreases n - k,
    {
        proof {
            assert(s@.skip(k as int)[0] == s@[k as int]);
            assert(s@.skip(k as int).skip(1) =~= s@.skip(k as int + 1));
        }
        k += 1;
    }
    proof {
        assert(spec_trim_start(s@.skip(k as int)) == s@.skip(k as int));
        assert(s@.skip(k as int) =~= s@.subrange(k as int, n as int));
    }
    s.substring_char(k, n)
}

// ---------------------------------------------------------------------------
// Joining and splitting
// ---------------------------------------------------------------------------

/// Words joined with a single separator character between adjacent words.
pub open spec fn spec_join(ws: Seq<Seq<char>>, sep: char) -> Seq<char>
    decreases ws.len(),
{
    if ws.len() == 0 {
        Seq::empty()
    } else if ws.len() == 1 {
        ws[0]
    } else {
        spec_join(ws.drop_last(), sep) + seq![sep] + ws.last()
    }
}

/// Joins `words[from..]` with the separator character.
pub fn join_with(words: &Vec<String>, from: usize, sep: char) -> (r: String)
    requires
        from <= words@.len(),
    ensures
        r@ == spec_join(words_view(words@.skip(from as int)), sep),
{
    let mut acc = String::new();
    let mut j: usize = from;
    while j < words.len()
        invariant
            from <= j <= words@.len(),
            acc@ == spec_join(words_view(words@.subrange(from as int, j as int)), sep),
        decreases words@.len() - j,
    {
        let ghost prefix = words_view(words@.subrange(from as int, j as int));
        let ghost next = words_view(words@.subrange(from as int, j as int + 1));
        proof {
            assert(next =~= prefix.push(words@[j as int]@));
        }
        if j > from {
            push_char(&mut acc, sep);
            acc.append(words[j].as_str());
            proof {
                assert(next.drop_last() =~= prefix);
                assert(next.last() == words@[j as int]@);
                assert(acc@ == spec_join(prefix, sep) + seq![sep] + words@[j as int]@);
            }
        } else {
            acc.append(words[j].as_str());
            proof {
                assert(prefix.len() == 0);
                assert(acc@ =~= words@[j as int]@);
                assert(next.len() == 1 && next[0] == words@[j as int]@);
            }
        }
        j += 1;
    }
    proof {
        assert(words@.subrange(from as int, words@.len() as int) =~= words@.skip(from as int));
    }
    acc
}

/// Splitting with an accumulator: `cur` holds the characters read since the
/// last separator.  Every separator closes one part; the final part is always
/// emitted, so the result is never empty and splitting the empty sequence
/// gives one empty part.
pub open spec fn spec_split_from(s: Seq<char>, sep: char, cur: Seq<char>) -> Seq<Seq<char>>
    decreases s.len(),
{
    if s.len() == 0 {
        seq![cur]
    } else if s[0] == sep {
        seq![cur] + spec_split_from(s.skip(1), sep, Seq::empty())
    } else {
        spec_split_from(s.skip(1), sep, cur.push(s[0]))
    }
}

pub open spec fn spec_split(s: Seq<char>, sep: char) -> Seq<Seq<char>> {
    spec_split_from(s, sep, Seq::empty())
}

/// Splits on every occurrence of the separator; empty parts are kept.
pub fn split_char(s: &str, sep: char) -> (r: Vec<String>)
    ensures
        words_view(r@) == spec_split(s@, sep),
{
    let n = s.unicode_len();
    let mut out: Vec<String> = Vec::new();
    let mut cur = String::new();
    let mut i: usize = 0;
    proof {
        assert(s@.skip(0) =~= s@);
        assert(words_view(out@) =~= Seq::<Seq<char>>::empty());
    }
    while i < n
        invariant
            i <= n,
            n == s@.len(),
            spec_split(s@, sep) == words_view(out@) + spec_split_from(
                s@.skip(i as int),
                sep,
                cur@,
            ),
        decreases n - i,
    {
        let c = s.get_char(i);
        proof {
            assert(s@.skip(i as int)[0] == c);
            assert(s@.skip(i as int).skip(1) =~= s@.skip(i as int + 1));
        }
        if c == sep {
            let ghost old_out = out@;
            let ghost cur_v = cur@;
            out.push(cur);
            cur = String::new();
            proof {
                assert(words_view(out@) =~= words_view(old_out).push(cur_v));
            }
        } else {
            push_char(&mut cur, c);
        }
        i += 1;
    }
    proof {
        assert(s@.skip(n as int).len() == 0);
    }
    let ghost old_out = out@;
    let ghost cur_v = cur@;
    out.push(cur);
    proof {
        assert(words_view(out@) =~= words_view(old_out).push(cur_v));
    }
    out
}

// ---------------------------------------------------------------------------
// Decimal numbers
// ---------------------------------------------------------------------------

pub open spec fn all_digits(s: Seq<char>) -> bool {
    forall|i: int| 0 <= i < s.len() ==> is_ascii_digit(#[trigger] s[i])
}

/// The value of a run of decimal digits, most significant first.
pub open spec fn digits_val(s: Seq<char>) -> int
    decreases s.len(),
{
    if s.len() == 0 {
        0
    } else {
        digits_val(s.drop_last()) * 10 + digit_value(s.last())
    }
}

pub proof fn lemma_digits_val_nonneg(s: Seq<char>)
    requires
        all_digits(s),
    ensures
        digits_val(s) >= 0,
    decreases s.len(),
{
    if s.len() > 0 {
        assert(all_digits(s.drop_last()));
        lemma_digits_val_nonneg(s.drop_last());
    }
}

/// Appending further digits can only grow the value.
pub proof fn lemma_digits_val_prefix(s: Seq<char>, j: int)
    requires
        all_digits(s),
        0 <= j <= s.len(),
    ensures
        digits_val(s.take(j)) <= digits_val(s),
    decreases s.len() - j,
{
    if j == s.len() {
        assert(s.take(j) =~= s);
    } else {
        assert(s.take(j + 1).drop_last() =~= s.take(j));
        assert(s.take(j + 1).last() == s[j]);
        assert(all_digits(s.take(j)));
        lemma_digits_val_nonneg(s.take(j));
        assert(digits_val(s.take(j + 1)) == digits_val(s.take(j)) * 10 + digit_value(s[j]));
        assert(digits_val(s.take(j)) <= digits_val(s.take(j + 1)));
        lemma_digits_val_prefix(s, j + 1);
    }
}

/// The magnitude part of a signed decimal literal; `None` where the digits
/// are missing, malformed, or the value falls outside the `i32` range.
pub open spec fn spec_parse_mag(mag: Seq<char>, neg: bool) -> Option<i32> {
    if mag.len() == 0 || !all_digits(mag) {
        Option::<i32>::None
    } else {
        let v = if neg {
            -digits_val(mag)
        } else {
            digits_val(mag)
        };
        if -2147483648 <= v && v <= 2147483647 {
            Option::<i32>::Some(v as i32)
        } else {
            Option::<i32>::None
        }
    }
}

/// What `str::parse::<i32>` accepts: an optional sign followed by one or more
/// decimal digits, with the value in range.
pub open spec fn spec_parse_i32(s: Seq<char>) -> Option<i32> {
    if s.len() > 0 && s[0] == '-' {
        spec_parse_mag(s.skip(1), true)
    } else if s.len() > 0 && s[0] == '+' {
        spec_parse_mag(s.skip(1), false)
    } else {
        spec_parse_mag(s, false)
    }
}

pub fn parse_i32(s: &str) -> (r: Option<i32>)
    ensures
        r == spec_parse_i32(s@),
{
    let n = s.unicode_len();
    let mut start: usize = 0;
    let mut negative = false;
    if n > 0 {
        let c0 = s.get_char(0);
        if c0 == '-' {
            negative = true;
            start = 1;
        } else if c0 == '+' {
            start = 1;
        }
    }
    let ghost mag = s@.skip(start as int);
    proof {
        assert(s@.skip(0) =~= s@);
    }
    if start == n {
        return Option::None;
    }
    let mut acc: i64 = 0;
    let mut j: usize = start;
    while j < n
        invariant
            start <= j <= n,
            start < n,
            n == s@.len(),
            mag == s@.skip(start as int),
            mag.len() == n - start,
            forall|k: int| 0 <= k < mag.len() ==> mag[k] == s@[start + k],
            all_digits(mag.take(j - start)),
            acc == digits_val(mag.take(j - start)),
            0 <= acc <= 2147483648,
            spec_parse_i32(s@) == spec_parse_mag(mag, negative),
        decreases n - j,
    {
        let c = s.get_char(j);
        proof {
            assert(mag[j - start] == c);
        }
        if !is_digit_char(c) {
            proof {
                assert(!all_digits(mag));
            }
            return Option::None;
        }
        let d: i64 = (c as u32 as i64) - 48;
        let acc2: i64 = acc * 10 + d;
        proof {
            assert(mag.take(j - start + 1).drop_last() =~= mag.take(j - start));
            assert(mag.take(j - start + 1).last() == mag[j - start]);
            assert(all_digits(mag.take(j - start + 1)));
            assert(acc2 == digits_val(mag.take(j - start + 1)));
        }
        if acc2 > 2147483648 {
            proof {
                if all_digits(mag) {
                    lemma_digits_val_prefix(mag, j - start + 1);
                    assert(digits_val(mag) >= acc2);
                }
            }
            return Option::None;
        }
        acc = acc2;
        j += 1;
    }
    proof {
        assert(mag.take(n - start) =~= mag);
        assert(all_digits(mag));
        assert(acc == digits_val(mag));
        assert(mag.len() > 0);
    }
    if negative {
        let v: i64 = -acc;
        proof {
            assert(-2147483648 <= v && v <= 2147483647);
        }
        Option::Some(v as i32)
    } else {
        if acc <= 2147483647 {
            Option::Some(acc as i32)
        } else {
            Option::None
        }
    }
}

} // verus!
