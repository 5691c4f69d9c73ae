//! Small string utilities shared by the rest of the library.

use vstd::prelude::*;
use vstd::string::*;

verus! {

/// The characters that `str::trim` removes: Unicode `White_Space`.
pub open spec fn is_space(c: char) -> bool {
    let u = c as u32;
    (0x9 <= u && u <= 0xd) || u == 0x20 || u == 0x85 || u == 0xa0 || u == 0x1680
        || (0x2000 <= u && u <= 0x200a) || u == 0x2028 || u == 0x2029 || u == 0x202f
        || u == 0x205f || u == 0x3000
}

/// A blank string is one that trims to the empty string.
pub open spec fn is_blank(s: Seq<char>) -> bool {
    forall|i: int| 0 <= i < s.len() ==> is_space(#[trigger] s[i])
}

/// The views of a sequence of strings.
pub open spec fn views(s: Seq<String>) -> Seq<Seq<char>> {
    s.map_values(|x: String| x@)
}

pub proof fn lemma_views_push(s: Seq<String>, x: String)
    ensures
        views(s.push(x)) == views(s).push(x@),
{
    assert(views(s.push(x)) =~= views(s).push(x@));
}

pub proof fn lemma_views_prefix(s: Seq<String>, i: int)
    requires
        0 <= i < s.len(),
    ensures
        views(s.subrange(0, i + 1)) == views(s.subrange(0, i)).push(s[i]@),
{
    assert(views(s.subrange(0, i + 1)) =~= views(s.subrange(0, i)).push(s[i]@));
}

/// `parts` joined with `filler` between each two neighbours.
pub open spec fn joined(parts: Seq<Seq<char>>, filler: Seq<char>) -> Seq<char>
    decreases parts.len(),
{
    if parts.len() == 0 {
        Seq::empty()
    } else if parts.len() == 1 {
        parts[0]
    } else {
        joined(parts.drop_last(), filler) + filler + parts.last()
    }
}

fn space_char(c: char) -> (r: bool)
    ensures
        r == is_space(c),
{
    let u = c as u32;
    (0x9 <= u && u <= 0xd) || u == 0x20 || u == 0x85 || u == 0xa0 || u == 0x1680 || (0x2000 <= u
        && u <= 0x200a) || u == 0x2028 || u == 0x2029 || u == 0x202f || u == 0x205f || u == 0x3000
}

/// Whether `s` holds nothing but whitespace.
pub fn blank(s: &str) -> (r: bool)
    ensures
        r == is_blank(s@),
{
    let n = s.unicode_len();
    let mut i: usize = 0;
    while i < n
        invariant
            n == s@.len(),
            i <= n,
            forall|j: int| 0 <= j < i ==> is_space(#[trigger] s@[j]),
        decreases n - i,
    {
        if !space_char(s.get_char(i)) {
            return false;
        }
        i = i + 1;
    }
    true
}

/// Joins `vector` into one string, with `filler` between each two elements.
pub fn string_vec_to_string(vector: &Vec<String>, filler: &str) -> (r: String)
    ensures
        r@ == joined(views(vector@), filler@),
{
    let mut phrase = String::new();
    let mut i: usize = 0;
    while i < vector.len()
        invariant
            i <= vector.len(),
            phrase@ == joined(views(vector@.subrange(0, i as int)), filler@),
        decreases vector.len() - i,
    {
        let ghost before = views(vector@.subrange(0, i as int));
        if i > 0 {
            phrase.append(filler);
        }
        phrase.append(vector[i].as_str());
        proof {
            let after = views(vector@.subrange(0, i + 1));
            assert(after.drop_last() =~= before);
            assert(after.last() == vector@[i as int]@);
            if i == 0 {
                assert(phrase@ =~= after[0]);
            }
        }
        i = i + 1;
    }
    proof {
        assert(vector@.subrange(0, vector@.len() as int) =~= vector@);
    }
    phrase
}


/// `s` without its leading whitespace.
pub open spec fn trim_start(s: Seq<char>) -> Seq<char>
    decreases s.len(),
{
    if s.len() > 0 && is_space(s[0]) {
        trim_start(s.skip(1))
    } else {
        s
    }
}

/// `s` without its trailing whitespace.
pub open spec fn trim_end(s: Seq<char>) -> Seq<char>
    decreases s.len(),
{
    if s.len() > 0 && is_space(s.last()) {
        trim_end(s.drop_last())
    } else {
        s
    }
}

/// `s` without leading and trailing whitespace, as `str::trim` gives it.
pub open spec fn trimmed(s: Seq<char>) -> Seq<char> {
    trim_end(trim_start(s))
}

proof fn lemma_trim_start(s: Seq<char>, i: int)
    requires
        0 <= i <= s.len(),
        forall|j: int| 0 <= j < i ==> is_space(#[trigger] s[j]),
        i == s.len() || !is_space(s[i]),
    ensures
        trim_start(s) == s.skip(i),
    decreases i,
{
    if i > 0 {
        assert forall|j: int| 0 <= j < i - 1 implies is_space(#[trigger] s.skip(1)[j]) by {
            assert(s.skip(1)[j] == s[j + 1]);
        }
        if i < s.len() {
            assert(s.skip(1)[i - 1] == s[i]);
        }
        lemma_trim_start(s.skip(1), i - 1);
        assert(s.skip(1).skip(i - 1) =~= s.skip(i));
    } else {
        assert(s.skip(0) =~= s);
    }
}

proof fn lemma_trim_end(s: Seq<char>, k: int)
    requires
        0 <= k <= s.len(),
        forall|j: int| k <= j < s.len() ==> is_space(#[trigger] s[j]),
        k == 0 || !is_space(s[k - 1]),
    ensures
        trim_end(s) == s.take(k),
    decreases s.len() - k,
{
    if k < s.len() {
        assert forall|j: int| k <= j < s.drop_last().len() implies is_space(#[trigger] s.drop_last()[j]) by {
            assert(s.drop_last()[j] == s[j]);
        }
        if k > 0 {
            assert(s.drop_last()[k - 1] == s[k - 1]);
        }
        lemma_trim_end(s.drop_last(), k);
        assert(s.drop_last().take(k) =~= s.take(k));
    } else {
        assert(s.take(k) =~= s);
    }
}

/// `s` without leading and trailing whitespace.
pub fn trim(s: &str) -> (r: String)
    ensures
        r@ == trimmed(s@),
{
    let n = s.unicode_len();
    let mut i: usize = 0;
    while i < n && space_char(s.get_char(i))
        invariant
            n == s@.len(),
            i <= n,
            forall|j: int| 0 <= j < i ==> is_space(#[trigger] s@[j]),
        decreases n - i,
    {
        i = i + 1;
    }
    proof {
        lemma_trim_start(s@, i as int);
    }
    let ghost t = s@.skip(i as int);
    let mut k: usize = n;
    while k > i && space_char(s.get_char(k - 1))
        invariant
            n == s@.len(),
            i <= k <= n,
            t == s@.skip(i as int),
            forall|j: int| k <= j < n ==> is_space(#[trigger] s@[j]),
        decreases k,
    {
        k = k - 1;
    }
    proof {
        assert forall|j: int| k - i <= j < t.len() implies is_space(#[trigger] t[j]) by {
            assert(t[j] == s@[j + i]);
        }
        if k > i {
            assert(t[k - i - 1] == s@[k - 1]);
        }
        lemma_trim_end(t, k - i);
        assert(t.take(k - i) =~= s@.subrange(i as int, k as int));
    }
    String::from_str(s.substring_char(i, k))
}

/// Whether `c` is an ASCII decimal digit.
pub open spec fn is_digit(c: char) -> bool {
    '0' <= c && c <= '9'
}

/// The value of the digit `c`.
pub open spec fn digit_value(c: char) -> int {
    (c as u32) - ('0' as u32)
}

/// The value of a string of decimal digits.
pub open spec fn digits_value(s: Seq<char>) -> int
    decreases s.len(),
{
    if s.len() == 0 {
        0
    } else {
        10 * digits_value(s.drop_last()) + digit_value(s.last())
    }
}

/// The digits of a number, after an optional `+`.
pub open spec fn unsigned_part(t: Seq<char>) -> Seq<char> {
    if t.len() > 0 && t[0] == '+' {
        t.skip(1)
    } else {
        t
    }
}

/// The number that `text` holds, as `text.trim().parse::<usize>()` reads it:
/// an optional `+` and one or more decimal digits, whose value fits in a
/// `usize`.
pub open spec fn number_in(text: Seq<char>) -> Option<usize> {
    let d = unsigned_part(trimmed(text));
    if d.len() > 0 && (forall|i: int| 0 <= i < d.len() ==> is_digit(#[trigger] d[i]))
        && digits_value(d) <= usize::MAX {
        Some(digits_value(d) as usize)
    } else {
        None
    }
}

proof fn lemma_digits_grow(s: Seq<char>, k: int)
    requires
        0 <= k <= s.len(),
        forall|i: int| 0 <= i < s.len() ==> is_digit(#[trigger] s[i]),
    ensures
        0 <= digits_value(s.take(k)) <= digits_value(s),
    decreases s.len(),
{
    if s.len() > 0 {
        assert forall|i: int| 0 <= i < s.drop_last().len() implies is_digit(#[trigger] s.drop_last()[i]) by {
            assert(s.drop_last()[i] == s[i]);
        }
        assert(is_digit(s[s.len() - 1]));
        lemma_digits_grow(s.drop_last(), s.drop_last().len() as int);
        assert(s.drop_last().take(s.drop_last().len() as int) =~= s.drop_last());
        if k < s.len() {
            lemma_digits_grow(s.drop_last(), k);
            assert(s.drop_last().take(k) =~= s.take(k));
        } else {
            assert(s.take(k) =~= s);
        }
    } else {
        assert(s.take(k) =~= s);
    }
}

/// Reads a non-negative decimal number, as `str::trim` followed by
/// `parse::<usize>` does.
pub fn parse_number(text: &str) -> (r: Option<usize>)
    ensures
        r == number_in(text@),
{
    let t = trim(text);
    let n = t.as_str().unicode_len();
    let mut start: usize = 0;
    if n > 0 && t.as_str().get_char(0) == '+' {
        start = 1;
    }
    let ghost d = unsigned_part(t@);
    assert(d =~= t@.skip(start as int));
    if start >= n {
        return None;
    }
    let mut value: usize = 0;
    let mut i: usize = start;
    while i < n
        invariant
            n == t@.len(),
            start <= i <= n,
            d == t@.skip(start as int),
            t@ == trimmed(text@),
            d == unsigned_part(t@),
            forall|j: int| 0 <= j < i - start ==> is_digit(#[trigger] d[j]),
            value as int == digits_value(d.take(i - start)),
        decreases n - i,
    {
        let c = t.as_str().get_char(i);
        let ghost k = i - start;
        assert(d[k] == c);
        assert(d.take(k + 1).drop_last() =~= d.take(k));
        if !('0' <= c && c <= '9') {
            assert(!is_digit(d[k]));
            assert(number_in(text@).is_none());
            return None;
        }
        let dig = (c as u32 - '0' as u32) as usize;
        if value > (usize::MAX - dig) / 10 {
            proof {
                assert forall|j: int| 0 <= j < k + 1 implies is_digit(#[trigger] d.take(k + 1)[j]) by {
                    assert(d.take(k + 1)[j] == d[j]);
                }
                assert(digits_value(d.take(k + 1)) > usize::MAX) by (nonlinear_arith)
                    requires
                        digits_value(d.take(k + 1)) == 10 * value + dig,
                        value > (usize::MAX - dig) / 10,
                        dig <= 9,
                {
                }
                if forall|j: int| 0 <= j < d.len() ==> is_digit(#[trigger] d[j]) {
                    lemma_digits_grow(d, k + 1);
                }
                assert(number_in(text@).is_none());
            }
            return None;
        }
        value = value * 10 + dig;
        i = i + 1;
    }
    assert(d.take(d.len() as int) =~= d);
    Some(value)
}

/// The decimal digits of `n`.
pub open spec fn decimal_of(n: nat) -> Seq<char>
    decreases n,
{
    if n < 10 {
        seq![digit_char(n)]
    } else {
        decimal_of(n / 10) + seq![digit_char(n % 10)]
    }
}

/// The character of the digit `d`.
pub open spec fn digit_char(d: nat) -> char {
    ((('0' as u32) + d) as u32) as char
}

/// Writes `n` in decimal, as `usize::to_string` does.
pub fn decimal(n: usize) -> (r: String)
    ensures
        r@ == decimal_of(n as nat),
    decreases n,
{
    let digits = "0123456789";
    proof {
        reveal_strlit("0123456789");
    }
    let d = n % 10;
    let one = digits.substring_char(d, d + 1);
    assert(one@ =~= seq![digit_char(d as nat)]) by {
        assert(one@[0] == digits@[d as int]);
    }
    if n < 10 {
        String::from_str(one)
    } else {
        let mut r = decimal(n / 10);
        r.append(one);
        r
    }
}


/// `with` before, between and after the characters of `s`: what an empty
/// pattern gives, since `str::split("")` cuts at every character boundary.
pub open spec fn interleaved(s: Seq<char>, with: Seq<char>) -> Seq<char>
    decreases s.len(),
{
    if s.len() == 0 {
        with
    } else {
        interleaved(s.drop_last(), with) + seq![s.last()] + with
    }
}

/// `s` with every occurrence of `pat`, read from the left and without
/// overlap, replaced by `with`, as splitting `s` at `pat` and joining the
/// parts with `with` gives it.
pub open spec fn replaced(s: Seq<char>, pat: Seq<char>, with: Seq<char>) -> Seq<char>
    decreases s.len(),
{
    if pat.len() == 0 {
        interleaved(s, with)
    } else if s.len() < pat.len() {
        s
    } else if s.take(pat.len() as int) == pat {
        with + replaced(s.skip(pat.len() as int), pat, with)
    } else {
        seq![s[0]] + replaced(s.skip(1), pat, with)
    }
}

/// Replaces every occurrence of `replace` in `full` by `with`.
pub fn sed(full: &str, replace: &str, with: &str) -> (r: String)
    ensures
        r@ == replaced(full@, replace@, with@),
{
    let n = full.unicode_len();
    let m = replace.unicode_len();
    if m == 0 {
        let mut out = String::from_str(with);
        let mut i: usize = 0;
        while i < n
            invariant
                n == full@.len(),
                i <= n,
                out@ == interleaved(full@.take(i as int), with@),
            decreases n - i,
        {
            let one = full.substring_char(i, i + 1);
            out.append(one);
            out.append(with);
            proof {
                let t = full@.take(i + 1);
                assert(t.drop_last() =~= full@.take(i as int));
                assert(one@ =~= seq![t.last()]);
            }
            assert(out@ =~= interleaved(full@.take(i + 1), with@));
            i = i + 1;
        }
        assert(full@.take(n as int) =~= full@);
        return out;
    }
    let pat = String::from_str(replace);
    let mut out = String::new();
    let mut i: usize = 0;
    assert(full@.skip(0) =~= full@);
    assert(out@ + replaced(full@, replace@, with@) =~= replaced(full@, replace@, with@));
    while i < n
        invariant
            n == full@.len(),
            m == replace@.len(),
            m > 0,
            pat@ == replace@,
            i <= n,
            out@ + replaced(full@.skip(i as int), replace@, with@) == replaced(full@, replace@, with@),
        decreases n - i,
    {
        let ghost rest = full@.skip(i as int);
        if n - i >= m && String::from_str(full.substring_char(i, i + m)) == pat {
            assert(rest.take(m as int) =~= full@.subrange(i as int, i + m));
            assert(rest.skip(m as int) =~= full@.skip(i + m));
            out.append(with);
            assert(out@ + replaced(full@.skip(i + m), replace@, with@) =~= replaced(full@, replace@, with@));
            i = i + m;
        } else {
            if n - i >= m {
                assert(rest.take(m as int) =~= full@.subrange(i as int, i + m));
            }
            assert(rest.skip(1) =~= full@.skip(i + 1));
            let one = full.substring_char(i, i + 1);
            assert(one@ =~= seq![rest[0]]);
            out.append(one);
            assert(out@ + replaced(full@.skip(i + 1), replace@, with@) =~= replaced(full@, replace@, with@));
            i = i + 1;
        }
    }
    assert(full@.skip(n as int).len() == 0);
    assert(out@ =~= replaced(full@, replace@, with@));
    out
}


/// The parts of `s` between the occurrences of `pat` (read from the left,
/// without overlap), as `str::split` gives them; an empty pattern cuts at
/// every character boundary.
pub open spec fn split_parts(s: Seq<char>, pat: Seq<char>) -> Seq<Seq<char>>
    decreases s.len(),
{
    if pat.len() == 0 {
        seq![Seq::empty()] + s.map_values(|c: char| seq![c]) + seq![Seq::empty()]
    } else if s.len() < pat.len() {
        seq![s]
    } else if s.take(pat.len() as int) == pat {
        seq![Seq::empty()] + split_parts(s.skip(pat.len() as int), pat)
    } else {
        let r = split_parts(s.skip(1), pat);
        r.update(0, seq![s[0]] + r[0])
    }
}

/// `r` with `cur` put in front of its first part, after the parts `out`.
pub open spec fn glued(out: Seq<Seq<char>>, cur: Seq<char>, r: Seq<Seq<char>>) -> Seq<Seq<char>> {
    out + seq![cur + r[0]] + r.skip(1)
}

proof fn lemma_split_parts_nonempty(s: Seq<char>, pat: Seq<char>)
    ensures
        split_parts(s, pat).len() > 0,
    decreases s.len(),
{
    if pat.len() > 0 && s.len() >= pat.len() && s.take(pat.len() as int) != pat {
        lemma_split_parts_nonempty(s.skip(1), pat);
    }
}

/// Splits `the_str` at every occurrence of `split_at`.
pub fn str_to_string_vec(the_str: &str, split_at: &str) -> (r: Vec<String>)
    ensures
        views(r@) == split_parts(the_str@, split_at@),
{
    let n = the_str.unicode_len();
    let m = split_at.unicode_len();
    let mut out: Vec<String> = Vec::new();
    if m == 0 {
        out.push(String::new());
        let mut i: usize = 0;
        while i < n
            invariant
                n == the_str@.len(),
                i <= n,
                views(out@) == seq![Seq::<char>::empty()] + the_str@.take(i as int).map_values(|c: char| seq![c]),
            decreases n - i,
        {
            let ghost prev = out@;
            let piece = String::from_str(the_str.substring_char(i, i + 1));
            assert(piece@ =~= seq![the_str@[i as int]]);
            out.push(piece);
            proof {
                lemma_views_push(prev, out@.last());
                assert(the_str@.take(i + 1).map_values(|c: char| seq![c]) =~= the_str@.take(i as int).map_values(
                    |c: char| seq![c],
                ).push(seq![the_str@[i as int]]));
            }
            assert(views(out@) =~= seq![Seq::<char>::empty()] + the_str@.take(i + 1).map_values(|c: char| seq![c]));
            i = i + 1;
        }
        let ghost prev = out@;
        out.push(String::new());
        proof {
            lemma_views_push(prev, out@.last());
            assert(the_str@.take(n as int) =~= the_str@);
        }
        assert(views(out@) =~= split_parts(the_str@, split_at@));
        return out;
    }
    let pat = String::from_str(split_at);
    let mut cur = String::new();
    let mut i: usize = 0;
    proof {
        lemma_split_parts_nonempty(the_str@, split_at@);
        assert(the_str@.skip(0) =~= the_str@);
        let r = split_parts(the_str@, split_at@);
        assert(glued(views(out@), cur@, r) =~= r);
    }
    while n - i >= m
        invariant
            n == the_str@.len(),
            m == split_at@.len(),
            m > 0,
            pat@ == split_at@,
            i <= n,
            glued(views(out@), cur@, split_parts(the_str@.skip(i as int), split_at@)) == split_parts(the_str@, split_at@),
        decreases n - i,
    {
        let ghost rest = the_str@.skip(i as int);
        if String::from_str(the_str.substring_char(i, i + m)) == pat {
            proof {
                assert(rest.take(m as int) =~= the_str@.subrange(i as int, i + m));
                assert(rest.skip(m as int) =~= the_str@.skip(i + m));
                let r2 = split_parts(the_str@.skip(i + m), split_at@);
                lemma_split_parts_nonempty(the_str@.skip(i + m), split_at@);
                assert(split_parts(rest, split_at@) == seq![Seq::<char>::empty()] + r2);
                lemma_views_push(out@, cur);
                assert(glued(views(out@.push(cur)), Seq::<char>::empty(), r2) =~= glued(
                    views(out@),
                    cur@,
                    split_parts(rest, split_at@),
                ));
            }
            out.push(cur);
            cur = String::new();
            i = i + m;
        } else {
            proof {
                assert(rest.take(m as int) =~= the_str@.subrange(i as int, i + m));
                assert(rest.skip(1) =~= the_str@.skip(i + 1));
                lemma_split_parts_nonempty(the_str@.skip(i + 1), split_at@);
            }
            let ghost before = cur@;
            let one = the_str.substring_char(i, i + 1);
            cur.append(one);
            proof {
                let r2 = split_parts(the_str@.skip(i + 1), split_at@);
                assert(one@ =~= seq![rest[0]]);
                assert(split_parts(rest, split_at@) == r2.update(0, seq![rest[0]] + r2[0]));
                assert(r2.update(0, seq![rest[0]] + r2[0]).skip(1) =~= r2.skip(1));
                assert(cur@ =~= before + seq![rest[0]]);
                assert(cur@ + r2[0] =~= before + (seq![rest[0]] + r2[0]));
                assert(glued(views(out@), cur@, r2) =~= glued(views(out@), before, split_parts(rest, split_at@)));
            }
            i = i + 1;
        }
    }
    let ghost cur_before = cur@;
    let tail = the_str.substring_char(i, n);
    cur.append(tail);
    let ghost rest = the_str@.skip(i as int);
    proof {
        assert(tail@ =~= rest);
        assert(split_parts(rest, split_at@) == seq![rest]);
    }
    let ghost prev = out@;
    out.push(cur);
    proof {
        lemma_views_push(prev, out@.last());
        assert(glued(views(prev), cur_before, seq![rest]) =~= views(prev).push(cur_before + rest));
    }
    out
}


/// Relies on `char::to_string` (through `Display`): the string of that one
/// character.
#[verifier::external_body]
fn char_string(c: char) -> (r: String)
    ensures
        r@ == seq![c],
{
    c.to_string()
}

/// The `fword`-th field (counting from 1) of `full`, with fields separated by
/// `dword`; empty if there are fewer fields.
pub fn cut(full: &str, fword: u32, dword: char) -> (r: String)
    requires
        fword >= 1,
    ensures
        ({
            let parts = split_parts(full@, seq![dword]);
            r@ == if parts.len() < fword { Seq::<char>::empty() } else { parts[fword - 1] }
        }),
{
    let sep = char_string(dword);
    let vecced = str_to_string_vec(full, sep.as_str());
    if vecced.len() < fword as usize {
        return String::new();
    }
    let r = vecced[(fword - 1) as usize].clone();
    assert(views(vecced@)[fword - 1] == r@);
    r
}

} // verus!
