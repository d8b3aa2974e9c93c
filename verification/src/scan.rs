//! Scanning text: whitespace, trimming, finding and splitting on a pattern,
//! whitespace-separated words and unsigned decimal numbers.
use vstd::prelude::*;

use crate::sorting::views;
use crate::text::{chars_of, decimal, digit_char, string_push};

verus! {

/// Whether `c` has the Unicode `White_Space` property: U+0009 to U+000D, the
/// space, U+0085, U+00A0, U+1680, U+2000 to U+200A, U+2028, U+2029, U+202F,
/// U+205F and U+3000.
pub open spec fn spec_is_whitespace(c: char) -> bool {
    let n = c as u32;
    ||| 9 <= n && n <= 13
    ||| n == 0x20
    ||| n == 0x85
    ||| n == 0xa0
    ||| n == 0x1680
    ||| 0x2000 <= n && n <= 0x200a
    ||| n == 0x2028
    ||| n == 0x2029
    ||| n == 0x202f
    ||| n == 0x205f
    ||| n == 0x3000
}

/// Whether a character is whitespace, as `char::is_whitespace` decides it:
/// by the Unicode `White_Space` property.
pub(crate) fn is_whitespace(c: char) -> (res: bool)
    ensures
        res == spec_is_whitespace(c),
{
    let n = c as u32;
    (9 <= n && n <= 13) || n == 0x20 || n == 0x85 || n == 0xa0 || n == 0x1680 || (0x2000 <= n && n <= 0x200a)
        || n == 0x2028 || n == 0x2029 || n == 0x202f || n == 0x205f || n == 0x3000
}

/// `s` without its leading whitespace.
pub open spec fn trim_start_ws(s: Seq<char>) -> Seq<char>
    decreases s.len(),
{
    if s.len() > 0 && spec_is_whitespace(s[0]) {
        trim_start_ws(s.drop_first())
    } else {
        s
    }
}

/// `s` without its trailing whitespace.
pub open spec fn trim_end_ws(s: Seq<char>) -> Seq<char>
    decreases s.len(),
{
    if s.len() > 0 && spec_is_whitespace(s.last()) {
        trim_end_ws(s.drop_last())
    } else {
        s
    }
}

/// `s` without leading and trailing whitespace.
pub open spec fn trim_ws(s: Seq<char>) -> Seq<char> {
    trim_end_ws(trim_start_ws(s))
}

/// `s` with `p` removed from its front for as long as it starts with `p`.
pub open spec fn strip_prefix_all(s: Seq<char>, p: Seq<char>) -> Seq<char>
    decreases s.len(),
{
    if p.len() > 0 && p.is_prefix_of(s) {
        strip_prefix_all(s.skip(p.len() as int), p)
    } else {
        s
    }
}

/// `s` with every trailing `c` removed.
pub open spec fn strip_char_end(s: Seq<char>, c: char) -> Seq<char>
    decreases s.len(),
{
    if s.len() > 0 && s.last() == c {
        strip_char_end(s.drop_last(), c)
    } else {
        s
    }
}

/// Whether `pat` occurs in `s` at position `i`.
pub open spec fn matches_at(s: Seq<char>, pat: Seq<char>, i: int) -> bool {
    0 <= i && i + pat.len() <= s.len() && s.subrange(i, i + pat.len()) == pat
}

/// The first position at or after `i` where `pat` occurs in `s`, or -1.
pub open spec fn find_at(s: Seq<char>, pat: Seq<char>, i: int) -> int
    decreases s.len() + 1 - i,
{
    if i < 0 || i + pat.len() > s.len() {
        -1
    } else if matches_at(s, pat, i) {
        i
    } else {
        find_at(s, pat, i + 1)
    }
}

/// `find_at` gives the first occurrence at or after `i`, or -1 when there is none.
pub proof fn lemma_find_at(s: Seq<char>, pat: Seq<char>, i: int)
    requires
        0 <= i,
    ensures
        find_at(s, pat, i) == -1 || (i <= find_at(s, pat, i) && matches_at(s, pat, find_at(s, pat, i))),
        forall|j: int| i <= j && (find_at(s, pat, i) == -1 || j < find_at(s, pat, i)) ==> !matches_at(s, pat, j),
    decreases s.len() + 1 - i,
{
    if i + pat.len() <= s.len() && !matches_at(s, pat, i) {
        lemma_find_at(s, pat, i + 1);
    }
}

/// The first occurrence at or after `i` is the one at `k` when nothing
/// matches between `i` and `k`.
pub proof fn lemma_find_at_first(s: Seq<char>, pat: Seq<char>, i: int, k: int)
    requires
        0 <= i <= k,
        matches_at(s, pat, k),
        forall|j: int| i <= j < k ==> !#[trigger] matches_at(s, pat, j),
    ensures
        find_at(s, pat, i) == k,
    decreases k - i,
{
    if i < k {
        assert(!matches_at(s, pat, i));
        lemma_find_at_first(s, pat, i + 1, k);
    }
}

/// Nothing is found from `i` on when nothing matches there.
pub proof fn lemma_find_at_absent(s: Seq<char>, pat: Seq<char>, i: int)
    requires
        0 <= i,
        forall|j: int| i <= j ==> !#[trigger] matches_at(s, pat, j),
    ensures
        find_at(s, pat, i) == -1,
    decreases s.len() + 1 - i,
{
    if i + pat.len() <= s.len() {
        assert(!matches_at(s, pat, i));
        lemma_find_at_absent(s, pat, i + 1);
    }
}

/// The pieces of `s` from position `i` on, between non-overlapping
/// occurrences of `pat`, found left to right.
pub open spec fn split_from(s: Seq<char>, pat: Seq<char>, i: int) -> Seq<Seq<char>>
    decreases s.len() + 1 - i,
{
    if pat.len() == 0 || i < 0 || i > s.len() {
        seq![s.subrange(i, s.len() as int)]
    } else {
        let k = find_at(s, pat, i);
        if k < 0 {
            seq![s.subrange(i, s.len() as int)]
        } else {
            proof {
                lemma_find_at(s, pat, i);
            }
            seq![s.subrange(i, k)] + split_from(s, pat, k + pat.len())
        }
    }
}

/// The pieces of `s` between the occurrences of `pat`.
pub open spec fn split_on(s: Seq<char>, pat: Seq<char>) -> Seq<Seq<char>> {
    split_from(s, pat, 0)
}

/// The text before and after the first occurrence of `pat`, if there is one.
pub open spec fn split_once(s: Seq<char>, pat: Seq<char>) -> Option<(Seq<char>, Seq<char>)> {
    let k = find_at(s, pat, 0);
    if k < 0 {
        None
    } else {
        Some((s.subrange(0, k), s.subrange(k + pat.len(), s.len() as int)))
    }
}

/// The end of the run of non-whitespace characters that starts at `i`.
pub open spec fn word_end(s: Seq<char>, i: int) -> int
    decreases s.len() - i,
{
    if i < 0 || i >= s.len() || spec_is_whitespace(s[i]) {
        i
    } else {
        word_end(s, i + 1)
    }
}

/// A word runs from `i` to `word_end`, inside the text.
pub proof fn lemma_word_end(s: Seq<char>, i: int)
    requires
        0 <= i <= s.len(),
    ensures
        i <= word_end(s, i) <= s.len(),
        i < s.len() && !spec_is_whitespace(s[i]) ==> i < word_end(s, i),
        forall|j: int| i <= j < word_end(s, i) ==> !spec_is_whitespace(#[trigger] s[j]),
        word_end(s, i) < s.len() ==> spec_is_whitespace(s[word_end(s, i)]),
    decreases s.len() - i,
{
    if i < s.len() && !spec_is_whitespace(s[i]) {
        lemma_word_end(s, i + 1);
    }
}

/// The maximal runs of non-whitespace characters of `s` from position `i` on.
pub open spec fn words_from(s: Seq<char>, i: int) -> Seq<Seq<char>>
    decreases s.len() - i,
{
    if i < 0 || i >= s.len() {
        Seq::empty()
    } else if spec_is_whitespace(s[i]) {
        words_from(s, i + 1)
    } else {
        let j = word_end(s, i);
        proof {
            lemma_word_end(s, i);
        }
        seq![s.subrange(i, j)] + words_from(s, j)
    }
}

/// The whitespace-separated words of `s`.
pub open spec fn words(s: Seq<char>) -> Seq<Seq<char>> {
    words_from(s, 0)
}

/// Whether a character is a decimal digit.
pub open spec fn is_digit(c: char) -> bool {
    48 <= (c as u32) && (c as u32) <= 57
}

/// The value of a string of decimal digits.
pub open spec fn digits_value(d: Seq<char>) -> nat
    decreases d.len(),
{
    if d.len() == 0 {
        0
    } else {
        digits_value(d.drop_last()) * 10 + ((d.last() as u32) - 48) as nat
    }
}

/// The digits of an unsigned number: the text after an optional `+`.
pub open spec fn unsigned_digits(s: Seq<char>) -> Seq<char> {
    if s.len() > 0 && s[0] == '+' {
        s.drop_first()
    } else {
        s
    }
}

/// The value of `s` read as an unsigned decimal number no larger than `max`:
/// an optional `+` and then one or more digits.
pub open spec fn parse_unsigned_spec(s: Seq<char>, max: nat) -> Option<nat> {
    let d = unsigned_digits(s);
    if d.len() > 0 && (forall|i: int| 0 <= i < d.len() ==> is_digit(#[trigger] d[i])) && digits_value(d) <= max {
        Some(digits_value(d))
    } else {
        None
    }
}

/// The characters `v[lo..hi]` as a string.
pub fn string_of(v: &Vec<char>, lo: usize, hi: usize) -> (res: String)
    requires
        lo <= hi <= v@.len(),
    ensures
        res@ == v@.subrange(lo as int, hi as int),
{
    let mut res = String::new();
    let mut i: usize = lo;
    while i < hi
        invariant
            lo <= i <= hi,
            hi <= v@.len(),
            res@ == v@.subrange(lo as int, i as int),
        decreases hi - i,
    {
        string_push(&mut res, v[i]);
        i = i + 1;
        assert(res@ =~= v@.subrange(lo as int, i as int));
    }
    res
}

/// The first position of the window `v[lo..hi]` that is not whitespace, or `hi`.
pub fn skip_ws(v: &Vec<char>, lo: usize, hi: usize) -> (res: usize)
    requires
        lo <= hi <= v@.len(),
    ensures
        lo <= res <= hi,
        trim_start_ws(v@.subrange(lo as int, hi as int)) == v@.subrange(res as int, hi as int),
{
    let mut i = lo;
    while i < hi && is_whitespace(v[i])
        invariant
            lo <= i <= hi,
            hi <= v@.len(),
            trim_start_ws(v@.subrange(lo as int, hi as int)) == trim_start_ws(v@.subrange(i as int, hi as int)),
        decreases hi - i,
    {
        assert(v@.subrange(i as int, hi as int).drop_first() =~= v@.subrange(i + 1, hi as int));
        i = i + 1;
    }
    i
}

/// The end of the window `v[lo..hi]` once trailing whitespace is dropped.
pub fn drop_ws_end(v: &Vec<char>, lo: usize, hi: usize) -> (res: usize)
    requires
        lo <= hi <= v@.len(),
    ensures
        lo <= res <= hi,
        trim_end_ws(v@.subrange(lo as int, hi as int)) == v@.subrange(lo as int, res as int),
{
    let mut j = hi;
    while j > lo && is_whitespace(v[j - 1])
        invariant
            lo <= j <= hi,
            hi <= v@.len(),
            trim_end_ws(v@.subrange(lo as int, hi as int)) == trim_end_ws(v@.subrange(lo as int, j as int)),
        decreases j - lo,
    {
        assert(v@.subrange(lo as int, j as int).drop_last() =~= v@.subrange(lo as int, j - 1));
        j = j - 1;
    }
    j
}

/// Whether `p` occurs in `v` at position `i`, inside the window ending at `hi`.
pub fn occurs_at(v: &Vec<char>, hi: usize, p: &Vec<char>, i: usize) -> (res: bool)
    requires
        i <= hi <= v@.len(),
    ensures
        res == p@.is_prefix_of(v@.subrange(i as int, hi as int)),
        res == matches_at(v@.subrange(0, hi as int), p@, i as int),
{
    if p.len() > hi - i {
        return false;
    }
    let mut k: usize = 0;
    while k < p.len()
        invariant
            k <= p@.len(),
            i + p@.len() <= hi <= v@.len(),
            forall|m: int| 0 <= m < k ==> v@[i + m] == p@[m],
        decreases p@.len() - k,
    {
        if v[i + k] != p[k] {
            assert(v@.subrange(i as int, hi as int)[k as int] != p@[k as int]);
            assert(v@.subrange(0, hi as int).subrange(i as int, i + p@.len())[k as int] != p@[k as int]);
            return false;
        }
        k = k + 1;
    }
    assert(v@.subrange(i as int, hi as int).subrange(0, p@.len() as int) =~= p@);
    assert(v@.subrange(0, hi as int).subrange(i as int, i + p@.len()) =~= p@);
    true
}

/// The start of the window `v[lo..hi]` once every leading copy of `p` is removed.
pub fn strip_prefix_window(v: &Vec<char>, lo: usize, hi: usize, p: &Vec<char>) -> (res: usize)
    requires
        lo <= hi <= v@.len(),
    ensures
        lo <= res <= hi,
        strip_prefix_all(v@.subrange(lo as int, hi as int), p@) == v@.subrange(res as int, hi as int),
{
    if p.len() == 0 {
        return lo;
    }
    let mut i = lo;
    while i < hi && occurs_at(v, hi, p, i)
        invariant
            lo <= i <= hi,
            hi <= v@.len(),
            p@.len() > 0,
            strip_prefix_all(v@.subrange(lo as int, hi as int), p@) == strip_prefix_all(
                v@.subrange(i as int, hi as int),
                p@,
            ),
        decreases hi - i,
    {
        assert(v@.subrange(i as int, hi as int).skip(p@.len() as int) =~= v@.subrange(i + p@.len(), hi as int));
        i = i + p.len();
    }
    if i < hi {
        return i;
    }
    assert(!p@.is_prefix_of(v@.subrange(i as int, hi as int)));
    i
}

/// The end of the window `v[lo..hi]` once every trailing `c` is removed.
pub fn strip_char_end_window(v: &Vec<char>, lo: usize, hi: usize, c: char) -> (res: usize)
    requires
        lo <= hi <= v@.len(),
    ensures
        lo <= res <= hi,
        strip_char_end(v@.subrange(lo as int, hi as int), c) == v@.subrange(lo as int, res as int),
{
    let mut j = hi;
    while j > lo && v[j - 1] == c
        invariant
            lo <= j <= hi,
            hi <= v@.len(),
            strip_char_end(v@.subrange(lo as int, hi as int), c) == strip_char_end(v@.subrange(lo as int, j as int), c),
        decreases j - lo,
    {
        assert(v@.subrange(lo as int, j as int).drop_last() =~= v@.subrange(lo as int, j - 1));
        j = j - 1;
    }
    j
}

/// `s` without leading and trailing whitespace.
pub fn trim_str(s: &str) -> (res: String)
    ensures
        res@ == trim_ws(s@),
{
    let v = chars_of(s);
    assert(v@.subrange(0, v@.len() as int) =~= s@);
    let lo = skip_ws(&v, 0, v.len());
    let hi = drop_ws_end(&v, lo, v.len());
    string_of(&v, lo, hi)
}

/// Whether `s` holds the character `c`.
pub fn contains_char(s: &str, c: char) -> (res: bool)
    ensures
        res == s@.contains(c),
{
    let v = chars_of(s);
    let mut i: usize = 0;
    while i < v.len()
        invariant
            v@ == s@,
            i <= v@.len(),
            forall|k: int| 0 <= k < i ==> v@[k] != c,
        decreases v@.len() - i,
    {
        if v[i] == c {
            return true;
        }
        i = i + 1;
    }
    false
}

/// The first occurrence of `p` in `v` at or after `i`.
fn find_from(v: &Vec<char>, p: &Vec<char>, i: usize) -> (res: Option<usize>)
    requires
        i <= v@.len(),
    ensures
        match res {
            Some(k) => k == find_at(v@, p@, i as int),
            None => find_at(v@, p@, i as int) == -1,
        },
{
    let mut j = i;
    while p.len() <= v.len() - j
        invariant
            i <= j <= v@.len(),
            find_at(v@, p@, i as int) == find_at(v@, p@, j as int),
        decreases v@.len() - j,
    {
        assert(v@.subrange(0, v@.len() as int) =~= v@);
        if occurs_at(v, v.len(), p, j) {
            return Some(j);
        }
        assert(p@.len() > 0) by {
            if p@.len() == 0 {
                assert(p@ =~= v@.subrange(j as int, v@.len() as int).subrange(0, 0));
            }
        }
        j = j + 1;
    }
    None
}

/// The pieces of `s` between the occurrences of `pat`.
pub fn split_all(s: &str, pat: &str) -> (res: Vec<String>)
    requires
        pat@.len() > 0,
    ensures
        views(res@) == split_on(s@, pat@),
{
    let v = chars_of(s);
    let p = chars_of(pat);
    let n = v.len();
    let mut res: Vec<String> = Vec::new();
    let mut i: usize = 0;
    loop
        invariant
            v@ == s@,
            n == v@.len(),
            p@ == pat@,
            p@.len() > 0,
            i <= v@.len(),
            views(res@) + split_from(v@, p@, i as int) == split_on(v@, p@),
        decreases v@.len() + 1 - i,
    {
        match find_from(&v, &p, i) {
            None => {
                let piece = string_of(&v, i, n);
                res.push(piece);
                assert(views(res@) =~= views(res@.drop_last()) + split_from(v@, p@, i as int));
                return res;
            },
            Some(k) => {
                proof {
                    lemma_find_at(v@, p@, i as int);
                    assert(matches_at(v@, p@, k as int));
                    assert(k + p@.len() <= v@.len());
                }
                let piece = string_of(&v, i, k);
                let ghost before = views(res@);
                res.push(piece);
                assert(views(res@) =~= before.push(v@.subrange(i as int, k as int)));
                assert(split_from(v@, p@, i as int) == seq![v@.subrange(i as int, k as int)] + split_from(
                    v@,
                    p@,
                    k + p@.len(),
                ));
                assert(views(res@) + split_from(v@, p@, k + p@.len()) =~= before + split_from(v@, p@, i as int));
                i = k + p.len();
            },
        }
    }
}

/// The text before and after the first occurrence of `pat`.
pub fn split_once_str(s: &str, pat: &str) -> (res: Option<(String, String)>)
    ensures
        match res {
            Some((a, b)) => split_once(s@, pat@) == Some((a@, b@)),
            None => split_once(s@, pat@) is None,
        },
{
    let v = chars_of(s);
    let p = chars_of(pat);
    match find_from(&v, &p, 0) {
        None => None,
        Some(k) => {
            proof {
                lemma_find_at(v@, p@, 0);
                assert(matches_at(v@, p@, k as int));
            }
            let end = v.len();
            Some((string_of(&v, 0, k), string_of(&v, k + p.len(), end)))
        },
    }
}

/// The whitespace-separated words of `s`.
pub fn split_words(s: &str) -> (res: Vec<String>)
    ensures
        views(res@) == words(s@),
{
    let v = chars_of(s);
    let mut res: Vec<String> = Vec::new();
    let mut i: usize = 0;
    while i < v.len()
        invariant
            v@ == s@,
            i <= v@.len(),
            views(res@) + words_from(v@, i as int) == words(v@),
        decreases v@.len() - i,
    {
        if is_whitespace(v[i]) {
            i = i + 1;
        } else {
            let mut j = i;
            while j < v.len() && !is_whitespace(v[j])
                invariant
                    i <= j <= v@.len(),
                    word_end(v@, i as int) == word_end(v@, j as int),
                decreases v@.len() - j,
            {
                j = j + 1;
            }
            proof {
                lemma_word_end(v@, i as int);
            }
            let ghost before = views(res@);
            res.push(string_of(&v, i, j));
            assert(views(res@) =~= before.push(v@.subrange(i as int, j as int)));
            assert(views(res@) + words_from(v@, j as int) =~= before + words_from(v@, i as int));
            i = j;
        }
    }
    assert(views(res@) =~= views(res@) + words_from(v@, i as int));
    res
}

/// Reads `s` as an unsigned decimal number no larger than `max`: an optional
/// `+` and then one or more digits.
pub fn parse_unsigned(s: &str, max: u64) -> (res: Option<u64>)
    ensures
        match res {
            Some(n) => parse_unsigned_spec(s@, max as nat) == Some(n as nat),
            None => parse_unsigned_spec(s@, max as nat) is None,
        },
{
    let v = chars_of(s);
    let start: usize = if v.len() > 0 && v[0] == '+' { 1 } else { 0 };
    let ghost d = unsigned_digits(s@);
    assert(d =~= v@.subrange(start as int, v@.len() as int));
    if start >= v.len() {
        return None;
    }
    let mut acc: u64 = 0;
    let mut over = false;
    let mut i: usize = start;
    while i < v.len()
        invariant
            v@ == s@,
            d == v@.subrange(start as int, v@.len() as int),
            d == unsigned_digits(s@),
            start <= i <= v@.len(),
            forall|k: int| 0 <= k < i - start ==> is_digit(#[trigger] d[k]),
            over ==> digits_value(d.take(i - start)) > max,
            !over ==> acc == digits_value(d.take(i - start)) && acc <= max,
        decreases v@.len() - i,
    {
        let c = v[i];
        let code = c as u32;
        if code < 48 || code > 57 {
            assert(!is_digit(d[i - start]));
            return None;
        }
        assert(d.take(i - start + 1).drop_last() =~= d.take(i - start));
        assert(d.take(i - start + 1).last() == c);
        let digit = (code - 48) as u64;
        if !over {
            let next: u128 = (acc as u128) * 10 + (digit as u128);
            if next > max as u128 {
                over = true;
            } else {
                acc = next as u64;
            }
        }
        i = i + 1;
    }
    assert(d.take(d.len() as int) =~= d);
    if over {
        None
    } else {
        Some(acc)
    }
}

/// The code of a digit's character.
proof fn lemma_digit_char(d: nat)
    requires
        d < 10,
    ensures
        digit_char(d) as u32 == 48 + d,
{
}

/// The decimal rendering of a number is one or more digits, none of them
/// whitespace, and reads back as the number.
pub proof fn lemma_decimal_reads_back(n: nat)
    ensures
        decimal(n).len() >= 1,
        forall|i: int| 0 <= i < decimal(n).len() ==> is_digit(#[trigger] decimal(n)[i]),
        forall|i: int| 0 <= i < decimal(n).len() ==> !spec_is_whitespace(#[trigger] decimal(n)[i]),
        digits_value(decimal(n)) == n,
        unsigned_digits(decimal(n)) == decimal(n),
    decreases n,
{
    if n < 10 {
        lemma_digit_char(n);
        let d = decimal(n);
        assert(d =~= seq![digit_char(n)]);
        assert(d.drop_last() =~= Seq::<char>::empty());
        assert(digits_value(d.drop_last()) == 0);
        assert(d.last() == digit_char(n));
        assert(((d.last() as u32) - 48) as nat == n);
        assert(digits_value(d) == digits_value(d.drop_last()) * 10 + ((d.last() as u32) - 48) as nat);
    } else {
        lemma_digit_char(n % 10);
        lemma_decimal_reads_back(n / 10);
        let d = decimal(n);
        assert(d.drop_last() == decimal(n / 10));
        assert(d.last() == digit_char(n % 10));
        assert(digits_value(d) == digits_value(d.drop_last()) * 10 + ((d.last() as u32) - 48) as nat);
        assert(((d.last() as u32) - 48) as nat == n % 10);
        assert((n / 10) * 10 + n % 10 == n) by (nonlinear_arith);
        assert(d[0] == decimal(n / 10)[0]);
    }
}

/// Reading the decimal rendering of a number no larger than `max` gives it.
pub proof fn lemma_parse_decimal(n: nat, max: nat)
    requires
        n <= max,
    ensures
        parse_unsigned_spec(decimal(n), max) == Some(n),
{
    lemma_decimal_reads_back(n);
}

} // verus!
