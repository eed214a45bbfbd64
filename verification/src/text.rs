//! Character-level text utilities: whitespace and OCR-noise classification,
//! scanning, filtering, splitting and matching over `&str` values, each proved
//! against a sequence-level specification.

use vstd::prelude::*;
use vstd::string::*;

verus! {

/// The Unicode `White_Space` code points, written out as the library's own
/// definition of a whitespace character.
pub open spec fn is_space(c: char) -> bool {
    ||| c == '\u{0009}'
    ||| c == '\u{000A}'
    ||| c == '\u{000B}'
    ||| c == '\u{000C}'
    ||| c == '\u{000D}'
    ||| c == ' '
    ||| c == '\u{0085}'
    ||| c == '\u{00A0}'
    ||| c == '\u{1680}'
    ||| c == '\u{2000}'
    ||| c == '\u{2001}'
    ||| c == '\u{2002}'
    ||| c == '\u{2003}'
    ||| c == '\u{2004}'
    ||| c == '\u{2005}'
    ||| c == '\u{2006}'
    ||| c == '\u{2007}'
    ||| c == '\u{2008}'
    ||| c == '\u{2009}'
    ||| c == '\u{200A}'
    ||| c == '\u{2028}'
    ||| c == '\u{2029}'
    ||| c == '\u{202F}'
    ||| c == '\u{205F}'
    ||| c == '\u{3000}'
}

/// The three ASCII characters treated as OCR misrecognition noise and removed
/// from every line before reconstruction.
pub open spec fn is_noise(c: char) -> bool {
    c == 'L' || c == 'S' || c == '/'
}

pub open spec fn is_digit(c: char) -> bool {
    48 <= c as u32 <= 57
}

/// An ASCII letter, the alphabetic part of a classification code.
pub open spec fn is_letter(c: char) -> bool {
    (65 <= c as u32 <= 90) || (97 <= c as u32 <= 122)
}

pub fn is_space_c(c: char) -> (r: bool)
    ensures
        r == is_space(c),
{
    c == '\u{0009}' || c == '\u{000A}' || c == '\u{000B}' || c == '\u{000C}' || c == '\u{000D}'
        || c == ' ' || c == '\u{0085}' || c == '\u{00A0}' || c == '\u{1680}' || c == '\u{2000}'
        || c == '\u{2001}' || c == '\u{2002}' || c == '\u{2003}' || c == '\u{2004}'
        || c == '\u{2005}' || c == '\u{2006}' || c == '\u{2007}' || c == '\u{2008}'
        || c == '\u{2009}' || c == '\u{200A}' || c == '\u{2028}' || c == '\u{2029}'
        || c == '\u{202F}' || c == '\u{205F}' || c == '\u{3000}'
}

pub fn is_noise_c(c: char) -> (r: bool)
    ensures
        r == is_noise(c),
{
    c == 'L' || c == 'S' || c == '/'
}

pub fn is_digit_c(c: char) -> (r: bool)
    ensures
        r == is_digit(c),
{
    let u = c as u32;
    48 <= u && u <= 57
}

pub fn is_letter_c(c: char) -> (r: bool)
    ensures
        r == is_letter(c),
{
    let u = c as u32;
    (65 <= u && u <= 90) || (97 <= u && u <= 122)
}

/// A first-order character class, so that one scanning function and one pair
/// of lemmas serve every scan in the crate.
#[derive(Clone, Copy)]
pub enum CharClass {
    Space,
    SpaceOrNoise,
    Digit,
    NotDigit,
    Letter,
    Not(char),
}

pub open spec fn in_class(cls: CharClass, c: char) -> bool {
    match cls {
        CharClass::Space => is_space(c),
        CharClass::SpaceOrNoise => is_space(c) || is_noise(c),
        CharClass::Digit => is_digit(c),
        CharClass::NotDigit => !is_digit(c),
        CharClass::Letter => is_letter(c),
        CharClass::Not(x) => c != x,
    }
}

pub fn in_class_c(cls: CharClass, c: char) -> (r: bool)
    ensures
        r == in_class(cls, c),
{
    match cls {
        CharClass::Space => is_space_c(c),
        CharClass::SpaceOrNoise => is_space_c(c) || is_noise_c(c),
        CharClass::Digit => is_digit_c(c),
        CharClass::NotDigit => !is_digit_c(c),
        CharClass::Letter => is_letter_c(c),
        CharClass::Not(x) => c != x,
    }
}

/// The first position at or after `i` whose character leaves the class
/// (`s.len()` if none does).
pub open spec fn scan(s: Seq<char>, cls: CharClass, i: nat) -> nat
    decreases s.len() - i,
{
    if i < s.len() && in_class(cls, s[i as int]) {
        scan(s, cls, (i + 1) as nat)
    } else {
        i
    }
}

pub proof fn lemma_scan(s: Seq<char>, cls: CharClass, i: nat)
    requires
        i <= s.len(),
    ensures
        i <= scan(s, cls, i) <= s.len(),
        forall|k: int| i <= k < scan(s, cls, i) ==> in_class(cls, s[k]),
        scan(s, cls, i) < s.len() ==> !in_class(cls, s[scan(s, cls, i) as int]),
    decreases s.len() - i,
{
    if i < s.len() && in_class(cls, s[i as int]) {
        lemma_scan(s, cls, (i + 1) as nat);
    }
}

pub proof fn lemma_scan_eq(s: Seq<char>, cls: CharClass, i: nat, j: nat)
    requires
        i <= j <= s.len(),
        forall|k: int| i <= k < j ==> in_class(cls, s[k]),
        j < s.len() ==> !in_class(cls, s[j as int]),
    ensures
        scan(s, cls, i) == j,
    decreases j - i,
{
    if i < j {
        lemma_scan_eq(s, cls, (i + 1) as nat, j);
    }
}

/// The first position at or before `i` such that every character before it,
/// back to position `i`, is in the class; scanning from the right.
pub open spec fn scan_back(s: Seq<char>, cls: CharClass, i: nat) -> nat
    decreases i,
{
    if i > 0 && in_class(cls, s[i - 1]) {
        scan_back(s, cls, (i - 1) as nat)
    } else {
        i
    }
}

pub proof fn lemma_scan_back_eq(s: Seq<char>, cls: CharClass, i: nat, j: nat)
    requires
        j <= i <= s.len(),
        forall|k: int| j <= k < i ==> in_class(cls, s[k]),
        j > 0 ==> !in_class(cls, s[j - 1]),
    ensures
        scan_back(s, cls, i) == j,
    decreases i - j,
{
    if j < i {
        lemma_scan_back_eq(s, cls, (i - 1) as nat, j);
    }
}

/// Exec scan: the first position at or after `from` outside the class.
pub fn scan_from(s: &str, cls: CharClass, from: usize) -> (r: usize)
    requires
        from <= s@.len(),
    ensures
        r == scan(s@, cls, from as nat),
        from <= r <= s@.len(),
        forall|k: int| from <= k < r ==> in_class(cls, s@[k]),
        r < s@.len() ==> !in_class(cls, s@[r as int]),
{
    let n = s.unicode_len();
    let mut k = from;
    while k < n && in_class_c(cls, s.get_char(k))
        invariant
            from <= k <= n,
            n == s@.len(),
            forall|t: int| from <= t < k ==> in_class(cls, s@[t]),
        decreases n - k,
    {
        k = k + 1;
    }
    proof {
        lemma_scan_eq(s@, cls, from as nat, k as nat);
    }
    k
}

/// Exec scan from the right: the least position `r <= from` with every
/// character in `[r, from)` in the class.
pub fn scan_back_from(s: &str, cls: CharClass, from: usize) -> (r: usize)
    requires
        from <= s@.len(),
    ensures
        r == scan_back(s@, cls, from as nat),
        r <= from,
        forall|k: int| r <= k < from ==> in_class(cls, s@[k]),
        r > 0 ==> !in_class(cls, s@[r - 1]),
{
    let mut k = from;
    while k > 0 && in_class_c(cls, s.get_char(k - 1))
        invariant
            k <= from <= s@.len(),
            forall|t: int| k <= t < from ==> in_class(cls, s@[t]),
        decreases k,
    {
        k = k - 1;
    }
    proof {
        lemma_scan_back_eq(s@, cls, from as nat, k as nat);
    }
    k
}

/// `s` with every whitespace character removed.
pub open spec fn strip_spaces(s: Seq<char>) -> Seq<char>
    decreases s.len(),
{
    if s.len() == 0 {
        Seq::empty()
    } else if is_space(s.last()) {
        strip_spaces(s.drop_last())
    } else {
        strip_spaces(s.drop_last()).push(s.last())
    }
}

/// `s` with every whitespace and OCR-noise character removed: the fully
/// cleaned form of one raw line.
pub open spec fn clean_line(s: Seq<char>) -> Seq<char>
    decreases s.len(),
{
    if s.len() == 0 {
        Seq::empty()
    } else if is_space(s.last()) || is_noise(s.last()) {
        clean_line(s.drop_last())
    } else {
        clean_line(s.drop_last()).push(s.last())
    }
}

pub fn strip_spaces_exec(s: &str) -> (r: String)
    ensures
        r@ == strip_spaces(s@),
{
    let n = s.unicode_len();
    let mut out = String::new();
    let mut i: usize = 0;
    while i < n
        invariant
            i <= n,
            n == s@.len(),
            out@ == strip_spaces(s@.take(i as int)),
        decreases n - i,
    {
        let c = s.get_char(i);
        if !is_space_c(c) {
            out.append(s.substring_char(i, i + 1));
        }
        proof {
            assert(s@.take(i + 1).drop_last() =~= s@.take(i as int));
            assert(s@.take(i + 1).last() == s@[i as int]);
            if !is_space(c) {
                assert(s@.subrange(i as int, i + 1) =~= seq![s@[i as int]]);
                assert(strip_spaces(s@.take(i as int)) + seq![s@[i as int]] =~= strip_spaces(
                    s@.take(i as int),
                ).push(s@[i as int]));
            }
        }
        i = i + 1;
    }
    proof {
        assert(s@.take(n as int) =~= s@);
    }
    out
}

pub fn clean_line_exec(s: &str) -> (r: String)
    ensures
        r@ == clean_line(s@),
{
    let n = s.unicode_len();
    let mut out = String::new();
    let mut i: usize = 0;
    while i < n
        invariant
            i <= n,
            n == s@.len(),
            out@ == clean_line(s@.take(i as int)),
        decreases n - i,
    {
        let c = s.get_char(i);
        if !is_space_c(c) && !is_noise_c(c) {
            out.append(s.substring_char(i, i + 1));
        }
        proof {
            assert(s@.take(i + 1).drop_last() =~= s@.take(i as int));
            assert(s@.take(i + 1).last() == s@[i as int]);
            if !is_space(c) && !is_noise(c) {
                assert(s@.subrange(i as int, i + 1) =~= seq![s@[i as int]]);
                assert(clean_line(s@.take(i as int)) + seq![s@[i as int]] =~= clean_line(
                    s@.take(i as int),
                ).push(s@[i as int]));
            }
        }
        i = i + 1;
    }
    proof {
        assert(s@.take(n as int) =~= s@);
    }
    out
}

/// The views of a sequence of strings.
pub open spec fn seq_views(v: Seq<String>) -> Seq<Seq<char>> {
    Seq::new(v.len(), |i: int| v[i]@)
}

pub proof fn lemma_seq_views_push(v: Seq<String>, x: String)
    ensures
        seq_views(v.push(x)) == seq_views(v).push(x@),
{
    assert(seq_views(v.push(x)) =~= seq_views(v).push(x@));
}

pub proof fn lemma_seq_views_drop_last(v: Seq<String>)
    requires
        v.len() > 0,
    ensures
        seq_views(v.drop_last()) == seq_views(v).drop_last(),
{
    assert(seq_views(v.drop_last()) =~= seq_views(v).drop_last());
}

/// The pieces of `s` after position `pos` between occurrences of `c`.
pub open spec fn split_on_from(s: Seq<char>, c: char, pos: int) -> Seq<Seq<char>>
    decreases s.len() - pos,
{
    if 0 <= pos <= s.len() {
        let j = scan(s, CharClass::Not(c), pos as nat);
        if pos <= j < s.len() {
            seq![s.subrange(pos, j as int)] + split_on_from(s, c, j as int + 1)
        } else {
            seq![s.subrange(pos, s.len() as int)]
        }
    } else {
        Seq::empty()
    }
}

/// The pieces of `s` between occurrences of `c`, as `str::split` yields them:
/// always at least one piece, and an empty trailing piece after a final `c`.
pub open spec fn split_on(s: Seq<char>, c: char) -> Seq<Seq<char>> {
    split_on_from(s, c, 0)
}

pub proof fn lemma_split_on_len(s: Seq<char>, c: char)
    ensures
        split_on(s, c).len() >= 1,
{
    let j = scan(s, CharClass::Not(c), 0);
    if 0 <= j < s.len() {
    } else {
    }
}

pub fn split_on_exec(s: &str, c: char) -> (out: Vec<String>)
    ensures
        seq_views(out@) == split_on(s@, c),
{
    let n = s.unicode_len();
    let mut out: Vec<String> = Vec::new();
    let mut pos: usize = 0;
    let mut done = false;
    proof {
        assert(seq_views(out@) + split_on_from(s@, c, 0) =~= split_on_from(s@, c, 0));
    }
    while !done
        invariant
            pos <= n,
            n == s@.len(),
            !done ==> split_on(s@, c) == seq_views(out@) + split_on_from(s@, c, pos as int),
            done ==> seq_views(out@) == split_on(s@, c),
        decreases n - pos + (if done {
            0int
        } else {
            1int
        }),
    {
        let j = scan_from(s, CharClass::Not(c), pos);
        let piece = s.substring_char(pos, j);
        let ghost old_out = out@;
        out.push(String::from_str(piece));
        proof {
            lemma_seq_views_push(old_out, out@.last());
            if j < n {
                assert(seq_views(out@) + split_on_from(s@, c, j + 1) =~= seq_views(old_out) + (
                seq![s@.subrange(pos as int, j as int)] + split_on_from(s@, c, j + 1)));
            } else {
                assert(seq_views(out@) =~= seq_views(old_out) + seq![
                    s@.subrange(pos as int, n as int),
                ]);
            }
        }
        if j < n {
            pos = j + 1;
        } else {
            done = true;
        }
    }
    out
}

/// The lines of a text: pieces between newline characters, without a trailing
/// empty piece after a final newline. A carriage return before the newline is
/// kept in its line here; the whitespace stripping applied to every line
/// afterwards removes it.
pub open spec fn spec_lines(s: Seq<char>) -> Seq<Seq<char>> {
    if s.len() == 0 || s.last() == '\n' {
        split_on(s, '\n').drop_last()
    } else {
        split_on(s, '\n')
    }
}

pub fn lines_exec(s: &str) -> (out: Vec<String>)
    ensures
        seq_views(out@) == spec_lines(s@),
{
    let n = s.unicode_len();
    let mut out = split_on_exec(s, '\n');
    if n == 0 || s.get_char(n - 1) == '\n' {
        proof {
            lemma_split_on_len(s@, '\n');
            lemma_seq_views_drop_last(out@);
        }
        let _last = out.pop();
    }
    out
}

/// `s` without leading and trailing whitespace.
pub open spec fn spec_trim(s: Seq<char>) -> Seq<char> {
    let a = scan(s, CharClass::Space, 0);
    if a == s.len() {
        Seq::empty()
    } else {
        s.subrange(a as int, scan_back(s, CharClass::Space, s.len()) as int)
    }
}

pub fn trim_exec<'a>(s: &'a str) -> (r: &'a str)
    ensures
        r@ == spec_trim(s@),
{
    let n = s.unicode_len();
    let a = scan_from(s, CharClass::Space, 0);
    if a == n {
        let r = s.substring_char(0, 0);
        proof {
            assert(r@ =~= spec_trim(s@));
        }
        r
    } else {
        let b = scan_back_from(s, CharClass::Space, n);
        proof {
            if b <= a {
                assert(is_space(s@[a as int]));
            }
        }
        s.substring_char(a, b)
    }
}

/// `suf` is a suffix of `s`.
pub open spec fn ends_with(s: Seq<char>, suf: Seq<char>) -> bool {
    suf.len() <= s.len() && s.subrange(s.len() - suf.len(), s.len() as int) == suf
}

pub fn ends_with_exec(s: &str, suf: &str) -> (r: bool)
    ensures
        r == ends_with(s@, suf@),
{
    let m = s.unicode_len();
    let k = suf.unicode_len();
    if k > m {
        return false;
    }
    let mut i: usize = 0;
    while i < k
        invariant
            i <= k <= m,
            m == s@.len(),
            k == suf@.len(),
            forall|t: int| 0 <= t < i ==> s@[m - k + t] == suf@[t],
        decreases k - i,
    {
        if s.get_char(m - k + i) != suf.get_char(i) {
            proof {
                assert(s@.subrange(m - k, m as int)[i as int] != suf@[i as int]);
            }
            return false;
        }
        i = i + 1;
    }
    proof {
        assert(s@.subrange(m - k, m as int) =~= suf@);
    }
    true
}

/// `sub` occurs somewhere in `s`.
pub open spec fn contains_sub(s: Seq<char>, sub: Seq<char>) -> bool {
    exists|i: int| 0 <= i && i + sub.len() <= s.len() && #[trigger] s.subrange(i, i + sub.len())
        == sub
}

pub fn contains_sub_exec(s: &str, sub: &str) -> (r: bool)
    ensures
        r == contains_sub(s@, sub@),
{
    let m = s.unicode_len();
    let k = sub.unicode_len();
    if k > m {
        return false;
    }
    let mut i: usize = 0;
    while i <= m - k
        invariant
            k <= m,
            m == s@.len(),
            k == sub@.len(),
            i <= m - k + 1,
            forall|t: int| 0 <= t < i ==> #[trigger] s@.subrange(t, t + k) != sub@,
        decreases m + 1 - i,
    {
        let mut j: usize = 0;
        while j < k && s.get_char(i + j) == sub.get_char(j)
            invariant
                j <= k,
                i + k <= m,
                m == s@.len(),
                k == sub@.len(),
                forall|t: int| 0 <= t < j ==> s@[i + t] == sub@[t],
            decreases k - j,
        {
            j = j + 1;
        }
        if j == k {
            proof {
                assert(s@.subrange(i as int, i + k) =~= sub@);
            }
            return true;
        }
        proof {
            assert(s@.subrange(i as int, i + k)[j as int] != sub@[j as int]);
        }
        i = i + 1;
    }
    false
}

/// Character-wise string equality.
pub fn str_eq(a: &str, b: &str) -> (r: bool)
    ensures
        r == (a@ == b@),
{
    let m = a.unicode_len();
    if m != b.unicode_len() {
        return false;
    }
    let mut i: usize = 0;
    while i < m
        invariant
            i <= m,
            m == a@.len(),
            m == b@.len(),
            forall|t: int| 0 <= t < i ==> a@[t] == b@[t],
        decreases m - i,
    {
        if a.get_char(i) != b.get_char(i) {
            return false;
        }
        i = i + 1;
    }
    proof {
        assert(a@ =~= b@);
    }
    true
}

/// How many times `c` occurs in `s`.
pub open spec fn count_char(s: Seq<char>, c: char) -> nat
    decreases s.len(),
{
    if s.len() == 0 {
        0
    } else {
        count_char(s.drop_last(), c) + (if s.last() == c {
            1nat
        } else {
            0nat
        })
    }
}

pub fn count_char_exec(s: &str, c: char) -> (r: usize)
    ensures
        r == count_char(s@, c),
{
    let n = s.unicode_len();
    let mut cnt: usize = 0;
    let mut i: usize = 0;
    while i < n
        invariant
            i <= n,
            n == s@.len(),
            cnt <= i,
            cnt == count_char(s@.take(i as int), c),
        decreases n - i,
    {
        proof {
            assert(s@.take(i + 1).drop_last() =~= s@.take(i as int));
            assert(s@.take(i + 1).last() == s@[i as int]);
        }
        if s.get_char(i) == c {
            cnt = cnt + 1;
        }
        i = i + 1;
    }
    proof {
        assert(s@.take(n as int) =~= s@);
    }
    cnt
}

} // verus!
