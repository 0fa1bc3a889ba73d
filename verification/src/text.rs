//! Text as sequences of characters: the operations on strings that the
//! rest of the library is stated over.

use vstd::prelude::*;
use vstd::std_specs::iter::IteratorSpec;
use vstd::string::*;

verus! {

/// The characters of `s`, in order.
pub fn chars_of(s: &str) -> (v: Vec<char>)
    ensures
        v@ == s@,
{
    let mut v: Vec<char> = Vec::new();
    let mut it = s.chars();
    loop
        invariant
            it.obeys_prophetic_iter_laws(),
            it.decrease() is Some,
            v@ + it.remaining() == s@,
        ensures
            it.remaining().len() == 0,
        decreases it.decrease()->0,
    {
        match it.next() {
            Some(c) => {
                v.push(c);
                assert(v@ + it.remaining() =~= s@);
            },
            None => {
                break;
            },
        }
    }
    assert(v@ + it.remaining() =~= v@);
    v
}

/// Index of the first `c` in `s`, or `s.len()` when `s` holds none.
pub open spec fn find_char(s: Seq<char>, c: char) -> int
    decreases s.len(),
{
    if s.len() == 0 || s[0] == c {
        0
    } else {
        1 + find_char(s.drop_first(), c)
    }
}

/// The parts of `s` between the occurrences of `sep`. There is always at
/// least one part, and a part is empty where two separators touch or one
/// stands at an end.
pub open spec fn split(s: Seq<char>, sep: char) -> Seq<Seq<char>>
    decreases s.len(),
{
    let i = find_char(s, sep);
    if 0 <= i < s.len() {
        seq![s.subrange(0, i)] + split(s.subrange(i + 1, s.len() as int), sep)
    } else {
        seq![s]
    }
}

/// `i` is where `find_char` finds `c`: no earlier index holds it, and index
/// `i`, if it is one, does.
pub proof fn lemma_find_char(s: Seq<char>, c: char, i: int)
    requires
        0 <= i <= s.len(),
        forall|j: int| 0 <= j < i ==> s[j] != c,
        i < s.len() ==> s[i] == c,
    ensures
        find_char(s, c) == i,
    decreases s.len(),
{
    if i > 0 {
        let tail = s.drop_first();
        assert forall|j: int| 0 <= j < i - 1 implies tail[j] != c by {
            assert(tail[j] == s[j + 1]);
        }
        lemma_find_char(tail, c, i - 1);
    }
}

/// What `find_char` finds is the first `c`: it lies within `s` or just
/// behind it, no earlier index holds `c`, and the index itself, if it is
/// one, does.
pub proof fn lemma_find_char_is_first(s: Seq<char>, c: char)
    ensures
        0 <= find_char(s, c) <= s.len(),
        forall|j: int| 0 <= j < find_char(s, c) ==> s[j] != c,
        find_char(s, c) < s.len() ==> s[find_char(s, c)] == c,
    decreases s.len(),
{
    if s.len() == 0 || s[0] == c {
    } else {
        let tail = s.drop_first();
        lemma_find_char_is_first(tail, c);
        let p = find_char(s, c);
        assert forall|j: int| 0 <= j < p implies s[j] != c by {
            if j > 0 {
                assert(s[j] == tail[j - 1]);
            }
        }
        if p < s.len() {
            assert(s[p] == tail[p - 1]);
        }
    }
}

/// The parts with `sep` between each two of them.
pub open spec fn join(parts: Seq<Seq<char>>, sep: char) -> Seq<char>
    decreases parts.len(),
{
    if parts.len() == 0 {
        Seq::empty()
    } else if parts.len() == 1 {
        parts[0]
    } else {
        parts[0] + seq![sep] + join(parts.subrange(1, parts.len() as int), sep)
    }
}

/// Splitting loses nothing: there is at least one part, no part holds the
/// separator, and the parts joined by the separator are the text again.
pub proof fn lemma_split_joins(s: Seq<char>, sep: char)
    ensures
        split(s, sep).len() >= 1,
        forall|k: int, j: int|
            0 <= k < split(s, sep).len() && 0 <= j < split(s, sep)[k].len() ==> split(
                s,
                sep,
            )[k][j] != sep,
        join(split(s, sep), sep) == s,
    decreases s.len(),
{
    let i = find_char(s, sep);
    lemma_find_char_is_first(s, sep);
    if i < s.len() {
        let head = s.subrange(0, i);
        let tail = s.subrange(i + 1, s.len() as int);
        let parts = split(s, sep);
        lemma_split_joins(tail, sep);
        assert(parts.subrange(1, parts.len() as int) =~= split(tail, sep));
        assert(head + seq![sep] + tail =~= s);
        assert forall|k: int, j: int| 0 <= k < parts.len() && 0 <= j < parts[k].len() implies parts[k][j]
            != sep by {
            if k > 0 {
                assert(parts[k] == split(tail, sep)[k - 1]);
            }
        }
    }
}

/// Texts that split into the same parts are the same text.
pub proof fn lemma_split_is_injective(a: Seq<char>, b: Seq<char>, sep: char)
    requires
        split(a, sep) == split(b, sep),
    ensures
        a == b,
{
    lemma_split_joins(a, sep);
    lemma_split_joins(b, sep);
}

/// The views of a list of strings.
pub open spec fn views(parts: Seq<&str>) -> Seq<Seq<char>> {
    Seq::new(parts.len(), |i: int| parts[i]@)
}

/// Splits `s` at every `sep`.
pub fn split_at_char<'a>(s: &'a str, sep: char) -> (parts: Vec<&'a str>)
    ensures
        views(parts@) == split(s@, sep),
{
    let chars = chars_of(s);
    let n = chars.len();
    let mut parts: Vec<&'a str> = Vec::new();
    let mut start: usize = 0;
    let mut i: usize = 0;
    proof {
        assert(s@.subrange(0, n as int) =~= s@);
        assert(views(parts@) + split(s@, sep) =~= split(s@, sep));
    }
    while i < n
        invariant
            chars@ == s@,
            n == chars.len(),
            start <= i <= n,
            forall|j: int| start <= j < i ==> chars@[j] != sep,
            views(parts@) + split(s@.subrange(start as int, n as int), sep) == split(s@, sep),
        decreases n - i,
    {
        if chars[i] == sep {
            let part = s.substring_char(start, i);
            proof {
                let tail = s@.subrange(start as int, n as int);
                assert forall|j: int| 0 <= j < i - start implies tail[j] != sep by {
                    assert(tail[j] == chars@[start + j]);
                }
                lemma_find_char(tail, sep, i - start);
                assert(tail.subrange(0, i - start) =~= part@);
                assert(tail.subrange(i - start + 1, tail.len() as int) =~= s@.subrange(
                    i + 1,
                    n as int,
                ));
                assert(views(parts@.push(part)) =~= views(parts@) + seq![part@]);
            }
            parts.push(part);
            start = i + 1;
        }
        i += 1;
    }
    let last = s.substring_char(start, n);
    proof {
        let tail = s@.subrange(start as int, n as int);
        assert forall|j: int| 0 <= j < tail.len() implies tail[j] != sep by {
            assert(tail[j] == chars@[start + j]);
        }
        lemma_find_char(tail, sep, tail.len() as int);
        assert(views(parts@.push(last)) =~= views(parts@) + seq![last@]);
    }
    parts.push(last);
    parts
}

/// The character that writes the digit `d`.
pub open spec fn digit(d: int) -> char {
    seq!['0', '1', '2', '3', '4', '5', '6', '7', '8', '9'][d]
}

/// `n` written in base ten, without sign and without leading zeros.
pub open spec fn decimal(n: nat) -> Seq<char>
    decreases n,
{
    if n < 10 {
        seq![digit(n as int)]
    } else {
        decimal(n / 10).push(digit((n % 10) as int))
    }
}

/// The one-character text of the digit `d`.
fn digit_text(d: u64) -> (t: &'static str)
    requires
        d < 10,
    ensures
        t@ == seq![digit(d as int)],
{
    let t = if d == 0 {
        "0"
    } else if d == 1 {
        "1"
    } else if d == 2 {
        "2"
    } else if d == 3 {
        "3"
    } else if d == 4 {
        "4"
    } else if d == 5 {
        "5"
    } else if d == 6 {
        "6"
    } else if d == 7 {
        "7"
    } else if d == 8 {
        "8"
    } else {
        "9"
    };
    proof {
        reveal_strlit("0");
        reveal_strlit("1");
        reveal_strlit("2");
        reveal_strlit("3");
        reveal_strlit("4");
        reveal_strlit("5");
        reveal_strlit("6");
        reveal_strlit("7");
        reveal_strlit("8");
        reveal_strlit("9");
        assert(t@ =~= seq![digit(d as int)]);
    }
    t
}

/// Writes `n` in base ten behind what `out` holds.
pub fn append_decimal(out: &mut String, n: u64)
    ensures
        final(out)@ == old(out)@ + decimal(n as nat),
    decreases n,
{
    if n >= 10 {
        append_decimal(out, n / 10);
    }
    out.append(digit_text(n % 10));
    proof {
        if n >= 10 {
            assert(old(out)@ + decimal((n / 10) as nat) + seq![digit((n % 10) as int)] =~= old(
                out,
            )@ + decimal(n as nat));
        }
    }
}

/// Whether two strings hold the same characters.
pub fn same_text(a: &str, b: &str) -> (same: bool)
    ensures
        same == (a@ == b@),
{
    String::from_str(a) == String::from_str(b)
}

/// Whether `s` ends with `suffix`.
pub open spec fn has_suffix(s: Seq<char>, suffix: Seq<char>) -> bool {
    suffix.len() <= s.len() && s.subrange(s.len() - suffix.len(), s.len() as int) == suffix
}

/// Whether `s` ends with `suffix`.
pub fn ends_with(s: &str, suffix: &str) -> (found: bool)
    ensures
        found == has_suffix(s@, suffix@),
{
    let n = s.unicode_len();
    let m = suffix.unicode_len();
    if m > n {
        false
    } else {
        same_text(s.substring_char(n - m, n), suffix)
    }
}

/// Whether `pat` stands in `s` from index `i` on.
pub open spec fn occurs_at(s: Seq<char>, pat: Seq<char>, i: int) -> bool {
    0 <= i && i + pat.len() <= s.len() && s.subrange(i, i + pat.len()) == pat
}

/// `s` with `with` in place of every occurrence of `pat`, read from the
/// left: an occurrence that begins inside an earlier one does not count,
/// and what was put in is not read again. An empty `pat` occurs nowhere.
pub open spec fn replaced(s: Seq<char>, pat: Seq<char>, with: Seq<char>) -> Seq<char>
    decreases s.len(),
{
    if s.len() == 0 || pat.len() == 0 {
        s
    } else if occurs_at(s, pat, 0) {
        with + replaced(s.subrange(pat.len() as int, s.len() as int), pat, with)
    } else {
        seq![s[0]] + replaced(s.drop_first(), pat, with)
    }
}

/// A text that is the pattern is replaced whole.
pub proof fn lemma_replaced_whole(pat: Seq<char>, with: Seq<char>)
    requires
        pat.len() > 0,
    ensures
        replaced(pat, pat, with) == with,
{
    assert(pat.subrange(0, pat.len() as int) =~= pat);
    let rest = pat.subrange(pat.len() as int, pat.len() as int);
    assert(rest =~= Seq::<char>::empty());
    assert(replaced(rest, pat, with) == rest);
    assert(with + rest =~= with);
}

/// A text in which the pattern stands nowhere stays as it is.
pub proof fn lemma_replaced_absent(s: Seq<char>, pat: Seq<char>, with: Seq<char>)
    requires
        forall|i: int| !occurs_at(s, pat, i),
    ensures
        replaced(s, pat, with) == s,
    decreases s.len(),
{
    if s.len() > 0 && pat.len() > 0 {
        let tail = s.drop_first();
        assert(!occurs_at(s, pat, 0));
        assert forall|i: int| !occurs_at(tail, pat, i) by {
            if 0 <= i && i + pat.len() <= tail.len() {
                assert(tail.subrange(i, i + pat.len()) =~= s.subrange(i + 1, i + 1 + pat.len()));
                assert(!occurs_at(s, pat, i + 1));
            }
        }
        lemma_replaced_absent(tail, pat, with);
        assert(seq![s[0]] + tail =~= s);
    }
}

/// Whether `pat` stands in `s` from index `i` on.
fn matches_at(s: &Vec<char>, pat: &Vec<char>, i: usize) -> (found: bool)
    requires
        i <= s.len(),
    ensures
        found == occurs_at(s@, pat@, i as int),
{
    let m = pat.len();
    if m > s.len() - i {
        return false;
    }
    let mut j: usize = 0;
    while j < m
        invariant
            m == pat.len(),
            i + m <= s.len(),
            j <= m,
            forall|k: int| 0 <= k < j ==> s@[i + k] == pat@[k],
        decreases m - j,
    {
        if s[i + j] != pat[j] {
            proof {
                assert(s@.subrange(i as int, i + m)[j as int] == s@[i + j]);
            }
            return false;
        }
        j += 1;
    }
    assert(s@.subrange(i as int, i + m) =~= pat@);
    true
}

/// `s` with `with` in place of every occurrence of `pat`.
pub fn replace_all(s: &str, pat: &str, with: &str) -> (out: String)
    ensures
        out@ == replaced(s@, pat@, with@),
{
    let chars = chars_of(s);
    let pattern = chars_of(pat);
    let n = chars.len();
    let m = pattern.len();
    let mut out = String::new();
    if m == 0 {
        out.append(s);
        assert(out@ =~= s@);
        return out;
    }
    let mut copied: usize = 0;
    let mut i: usize = 0;
    proof {
        assert(s@.subrange(0, n as int) =~= s@);
        assert(out@ + s@.subrange(0, 0) + replaced(s@, pat@, with@) =~= replaced(
            s@,
            pat@,
            with@,
        ));
    }
    while i < n
        invariant
            chars@ == s@,
            pattern@ == pat@,
            n == chars.len(),
            m == pattern.len(),
            m > 0,
            copied <= i <= n,
            out@ + s@.subrange(copied as int, i as int) + replaced(
                s@.subrange(i as int, n as int),
                pat@,
                with@,
            ) == replaced(s@, pat@, with@),
        decreases n - i,
    {
        let ghost rest = s@.subrange(i as int, n as int);
        let ghost pending = s@.subrange(copied as int, i as int);
        let ghost written = out@;
        if matches_at(&chars, &pattern, i) {
            out.append(s.substring_char(copied, i));
            out.append(with);
            proof {
                assert(rest.subrange(0, m as int) =~= s@.subrange(i as int, i + m));
                assert(occurs_at(rest, pat@, 0));
                assert(rest.subrange(m as int, rest.len() as int) =~= s@.subrange(i + m, n as int));
                assert(out@ + s@.subrange(i + m, i + m) + replaced(
                    s@.subrange(i + m, n as int),
                    pat@,
                    with@,
                ) =~= written + pending + replaced(rest, pat@, with@));
            }
            i += m;
            copied = i;
        } else {
            proof {
                if m <= rest.len() {
                    assert(rest.subrange(0, m as int) =~= s@.subrange(i as int, i + m));
                }
                assert(!occurs_at(rest, pat@, 0));
                assert(rest.drop_first() =~= s@.subrange(i + 1, n as int));
                assert(s@.subrange(copied as int, i + 1) =~= pending + seq![rest[0]]);
                assert(written + s@.subrange(copied as int, i + 1) + replaced(
                    s@.subrange(i + 1, n as int),
                    pat@,
                    with@,
                ) =~= written + pending + replaced(rest, pat@, with@));
            }
            i += 1;
        }
    }
    out.append(s.substring_char(copied, n));
    proof {
        assert(s@.subrange(n as int, n as int) =~= Seq::<char>::empty());
        assert(out@ =~= replaced(s@, pat@, with@));
    }
    out
}

} // verus!
