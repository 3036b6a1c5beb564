//! Text helpers: searching, trimming, splitting, number formatting and
//! parsing, each stated over the sequence of characters of the string.

use vstd::prelude::*;
use vstd::utf8::*;

verus! {

/// `String::push`: appends one character to the end of the string.
pub assume_specification[ String::push ](s: &mut String, c: char)
    ensures
        final(s)@ == old(s)@.push(c),
;

// ---------------------------------------------------------------------------
// Copying and comparing
// ---------------------------------------------------------------------------

/// The characters of a string, one by one.
pub fn chars_of(s: &str) -> (r: Vec<char>)
    ensures
        r@ == s@,
{
    let mut r: Vec<char> = Vec::new();
    for c in it: s.chars()
        invariant
            r@ == it.seq().take(it.index() as int),
            it.seq() == s@,
    {
        r.push(c);
    }
    r
}

/// The string made of the characters `cs[from..to]`.
pub fn string_of(cs: &Vec<char>, from: usize, to: usize) -> (r: String)
    requires
        from <= to <= cs@.len(),
    ensures
        r@ == cs@.subrange(from as int, to as int),
{
    let mut r = String::new();
    let mut i: usize = from;
    while i < to
        invariant
            from <= i <= to <= cs@.len(),
            r@ == cs@.subrange(from as int, i as int),
        decreases to - i,
    {
        r.push(cs[i]);
        i += 1;
    }
    r
}

/// Whether two strings hold the same characters.
pub fn same(a: &str, b: &str) -> (r: bool)
    ensures
        r == (a@ == b@),
{
    let x = chars_of(a);
    let y = chars_of(b);
    if x.len() != y.len() {
        return false;
    }
    let mut i: usize = 0;
    while i < x.len()
        invariant
            i <= x@.len(),
            x@.len() == y@.len(),
            x@ == a@,
            y@ == b@,
            forall|j: int| 0 <= j < i ==> x@[j] == y@[j],
        decreases x@.len() - i,
    {
        if x[i] != y[i] {
            return false;
        }
        i += 1;
    }
    assert(x@ =~= y@);
    true
}

/// The concatenation of two strings.
pub fn join(a: &str, b: &str) -> (r: String)
    ensures
        r@ == a@ + b@,
{
    let mut r = a.to_string();
    r.append(b);
    r
}

// ---------------------------------------------------------------------------
// Searching
// ---------------------------------------------------------------------------

/// `n` occurs in `s` at position `i`.
pub open spec fn occurs_at(s: Seq<char>, n: Seq<char>, i: int) -> bool {
    0 <= i && i + n.len() <= s.len() && s.subrange(i, i + n.len()) == n
}

/// `n` occurs somewhere in `s`.
pub open spec fn occurs(s: Seq<char>, n: Seq<char>) -> bool {
    exists|i: int| occurs_at(s, n, i)
}

/// `s` ends with `n`.
pub open spec fn ends(s: Seq<char>, n: Seq<char>) -> bool {
    occurs_at(s, n, s.len() - n.len())
}

/// `s` starts with `n`.
pub open spec fn starts(s: Seq<char>, n: Seq<char>) -> bool {
    occurs_at(s, n, 0)
}

/// Whether `n` occurs in `s` at position `i`.
pub fn is_at(s: &Vec<char>, n: &Vec<char>, i: usize) -> (r: bool)
    ensures
        r == occurs_at(s@, n@, i as int),
{
    if i > s.len() || n.len() > s.len() - i {
        return false;
    }
    let mut k: usize = 0;
    while k < n.len()
        invariant
            k <= n@.len(),
            i + n@.len() <= s.len(),
            forall|j: int| 0 <= j < k ==> s@[i + j] == n@[j],
        decreases n@.len() - k,
    {
        if s[i + k] != n[k] {
            assert(s@.subrange(i as int, i + n@.len())[k as int] != n@[k as int]);
            return false;
        }
        k += 1;
    }
    assert(s@.subrange(i as int, i + n@.len()) =~= n@);
    true
}

/// The position of the first occurrence of `n` in `s`.
pub fn position_of(s: &Vec<char>, n: &Vec<char>) -> (r: Option<usize>)
    ensures
        match r {
            Some(i) => occurs_at(s@, n@, i as int) && forall|j: int|
                0 <= j < i ==> !occurs_at(s@, n@, j),
            None => !occurs(s@, n@),
        },
{
    let mut i: usize = 0;
    while i <= s.len() && n.len() <= s.len() - i
        invariant
            i <= s@.len() + 1,
            forall|j: int| 0 <= j < i ==> !occurs_at(s@, n@, j),
        decreases s@.len() + 1 - i,
    {
        if is_at(s, n, i) {
            return Some(i);
        }
        if i == s.len() {
            assert forall|j: int| !occurs_at(s@, n@, j) by {
                if 0 <= j <= i {
                }
            }
            return None;
        }
        i += 1;
    }
    assert forall|j: int| !occurs_at(s@, n@, j) by {
        if 0 <= j < i {
        }
    }
    None
}

/// Whether `n` occurs in `s`.
pub fn contains(s: &str, n: &str) -> (r: bool)
    ensures
        r == occurs(s@, n@),
{
    let a = chars_of(s);
    let b = chars_of(n);
    match position_of(&a, &b) {
        Some(_) => true,
        None => false,
    }
}

/// Whether `s` starts with `n`.
pub fn starts_with(s: &str, n: &str) -> (r: bool)
    ensures
        r == starts(s@, n@),
{
    let a = chars_of(s);
    let b = chars_of(n);
    is_at(&a, &b, 0)
}

/// Whether `s` ends with `n`.
pub fn ends_with(s: &str, n: &str) -> (r: bool)
    ensures
        r == ends(s@, n@),
{
    let a = chars_of(s);
    let b = chars_of(n);
    if b.len() > a.len() {
        return false;
    }
    is_at(&a, &b, a.len() - b.len())
}

/// `s` without its first `n` characters.
pub fn skip(s: &str, n: usize) -> (r: String)
    requires
        n <= s@.len(),
    ensures
        r@ == s@.skip(n as int),
{
    let a = chars_of(s);
    let r = string_of(&a, n, a.len());
    assert(s@.subrange(n as int, s@.len() as int) =~= s@.skip(n as int));
    r
}

/// `s` with every leading copy of the non-empty prefix `p` removed.
pub open spec fn strip_all(s: Seq<char>, p: Seq<char>) -> Seq<char>
    decreases s.len(),
{
    if p.len() > 0 && starts(s, p) {
        strip_all(s.skip(p.len() as int), p)
    } else {
        s
    }
}

/// Removes every leading copy of `p` from `s`.
pub fn trim_start_matches(s: &str, p: &str) -> (r: String)
    ensures
        r@ == strip_all(s@, p@),
{
    let a = chars_of(s);
    let b = chars_of(p);
    let mut i: usize = 0;
    assert(a@.skip(0) =~= s@);
    while b.len() > 0 && is_at(&a, &b, i)
        invariant
            i <= a@.len(),
            a@ == s@,
            b@ == p@,
            strip_all(s@, p@) == strip_all(a@.skip(i as int), p@),
        decreases a@.len() - i,
    {
        proof {
            let t = a@.skip(i as int);
            assert(t.subrange(0, b@.len() as int) =~= a@.subrange(i as int, i + b@.len()));
            assert(starts(t, p@));
            assert(t.skip(b@.len() as int) =~= a@.skip(i + b@.len()));
            assert(i + b.len() <= a.len());
        }
        i += b.len();
    }
    proof {
        let t = a@.skip(i as int);
        if b@.len() > 0 && starts(t, p@) {
            assert(t.subrange(0, b@.len() as int) =~= a@.subrange(i as int, i + b@.len()));
            assert(false);
        }
        assert(t =~= a@.subrange(i as int, a@.len() as int));
    }
    string_of(&a, i, a.len())
}

// ---------------------------------------------------------------------------
// White space, words and lines
// ---------------------------------------------------------------------------

/// The characters with the Unicode `White_Space` property.
pub open spec fn is_white(c: char) -> bool {
    ||| '\u{9}' <= c <= '\u{d}'
    ||| c == ' '
    ||| c == '\u{85}'
    ||| c == '\u{a0}'
    ||| c == '\u{1680}'
    ||| '\u{2000}' <= c <= '\u{200a}'
    ||| c == '\u{2028}'
    ||| c == '\u{2029}'
    ||| c == '\u{202f}'
    ||| c == '\u{205f}'
    ||| c == '\u{3000}'
}

/// Whether a character is white space.
pub fn white(c: char) -> (r: bool)
    ensures
        r == is_white(c),
{
    ('\u{9}' <= c && c <= '\u{d}') || c == ' ' || c == '\u{85}' || c == '\u{a0}' || c == '\u{1680}'
        || ('\u{2000}' <= c && c <= '\u{200a}') || c == '\u{2028}' || c == '\u{2029}'
        || c == '\u{202f}' || c == '\u{205f}' || c == '\u{3000}'
}

/// `s` without its leading white space.
pub open spec fn trimmed_start(s: Seq<char>) -> Seq<char>
    decreases s.len(),
{
    if s.len() > 0 && is_white(s[0]) {
        trimmed_start(s.skip(1))
    } else {
        s
    }
}

/// `s` without its trailing white space.
pub open spec fn trimmed_end(s: Seq<char>) -> Seq<char>
    decreases s.len(),
{
    if s.len() > 0 && is_white(s.last()) {
        trimmed_end(s.drop_last())
    } else {
        s
    }
}

/// `s` without leading and trailing white space.
pub open spec fn trimmed(s: Seq<char>) -> Seq<char> {
    trimmed_end(trimmed_start(s))
}

/// The first position from `i` on that holds no white space.
fn skip_white(a: &Vec<char>, from: usize) -> (i: usize)
    requires
        from <= a@.len(),
    ensures
        from <= i <= a@.len(),
        a@.skip(i as int) == trimmed_start(a@.skip(from as int)),
        i < a@.len() ==> !is_white(a@[i as int]),
{
    let mut i: usize = from;
    while i < a.len() && white(a[i])
        invariant
            from <= i <= a@.len(),
            trimmed_start(a@.skip(from as int)) == trimmed_start(a@.skip(i as int)),
        decreases a@.len() - i,
    {
        assert(a@.skip(i as int).skip(1) =~= a@.skip(i + 1));
        i += 1;
    }
    i
}

/// `s` without leading and trailing white space.
pub fn trim(s: &str) -> (r: String)
    ensures
        r@ == trimmed(s@),
{
    let a = chars_of(s);
    let i = skip_white(&a, 0);
    assert(a@.skip(0) =~= s@);
    let mut j: usize = a.len();
    assert(a@.subrange(i as int, j as int) =~= a@.skip(i as int));
    while j > i && white(a[j - 1])
        invariant
            i <= j <= a@.len(),
            trimmed(s@) == trimmed_end(a@.subrange(i as int, j as int)),
        decreases j,
    {
        assert(a@.subrange(i as int, j as int).drop_last() =~= a@.subrange(i as int, j - 1));
        j -= 1;
    }
    string_of(&a, i, j)
}

/// The position of the first character of `s` equal to `c`, or its length.
pub open spec fn upto(s: Seq<char>, c: char) -> int
    decreases s.len(),
{
    if s.len() == 0 || s[0] == c {
        0
    } else {
        1 + upto(s.skip(1), c)
    }
}

/// What `upto` finds: nothing before it equals `c`.
pub proof fn lemma_upto(s: Seq<char>, c: char)
    ensures
        0 <= upto(s, c) <= s.len(),
        forall|j: int| 0 <= j < upto(s, c) ==> s[j] != c,
        upto(s, c) < s.len() ==> s[upto(s, c)] == c,
    decreases s.len(),
{
    if s.len() == 0 || s[0] == c {
    } else {
        lemma_upto(s.skip(1), c);
        assert forall|j: int| 0 <= j < upto(s, c) implies s[j] != c by {
            if j > 0 {
                assert(s.skip(1)[j - 1] == s[j]);
            }
        }
    }
}

/// The position of the first `c` in `a` from `from` on, or the length.
pub fn find_char(a: &Vec<char>, from: usize, c: char) -> (i: usize)
    requires
        from <= a@.len(),
    ensures
        from <= i <= a@.len(),
        i == from + upto(a@.skip(from as int), c),
{
    let mut i: usize = from;
    while i < a.len() && a[i] != c
        invariant
            from <= i <= a@.len(),
            forall|j: int| from <= j < i ==> a@[j] != c,
        decreases a@.len() - i,
    {
        i += 1;
    }
    proof {
        let t = a@.skip(from as int);
        lemma_upto(t, c);
        let k = upto(t, c);
        if k < i - from {
            assert(t[k] == a@[from + k]);
        }
        if k > i - from {
            assert(t[i - from] == a@[i as int]);
        }
    }
    i
}

/// The pieces of `s` between the occurrences of `c`.
pub open spec fn pieces(s: Seq<char>, c: char) -> Seq<Seq<char>>
    decreases s.len(),
{
    let k = upto(s, c);
    if 0 <= k < s.len() {
        seq![s.take(k)] + pieces(s.skip(k + 1), c)
    } else {
        seq![s]
    }
}

/// One line without the carriage return that may end it.
pub open spec fn without_cr(s: Seq<char>) -> Seq<char> {
    if s.len() > 0 && s.last() == '\r' {
        s.drop_last()
    } else {
        s
    }
}

/// The lines of `s`: each ends in a line feed, which a carriage return may
/// precede; the last may lack it.
pub open spec fn text_lines(s: Seq<char>) -> Seq<Seq<char>>
    decreases s.len(),
{
    let k = upto(s, '\n');
    if s.len() == 0 {
        seq![]
    } else if 0 <= k < s.len() {
        seq![without_cr(s.take(k))] + text_lines(s.skip(k + 1))
    } else {
        seq![s]
    }
}

/// The length of the leading run of `s` that holds no white space.
pub open spec fn word_len(s: Seq<char>) -> int
    decreases s.len(),
{
    if s.len() == 0 || is_white(s[0]) {
        0
    } else {
        1 + word_len(s.skip(1))
    }
}

pub proof fn lemma_word_len(s: Seq<char>)
    ensures
        0 <= word_len(s) <= s.len(),
        s.len() > 0 && !is_white(s[0]) ==> word_len(s) > 0,
    decreases s.len(),
{
    if s.len() == 0 || is_white(s[0]) {
    } else {
        lemma_word_len(s.skip(1));
    }
}

pub proof fn lemma_trimmed_start(s: Seq<char>)
    ensures
        trimmed_start(s).len() <= s.len(),
        trimmed_start(s).len() > 0 ==> !is_white(trimmed_start(s)[0]),
    decreases s.len(),
{
    if s.len() > 0 && is_white(s[0]) {
        lemma_trimmed_start(s.skip(1));
    }
}

/// The words of `s`: its maximal runs without white space.
pub open spec fn words(s: Seq<char>) -> Seq<Seq<char>>
    decreases s.len(),
{
    let t = trimmed_start(s);
    if t.len() == 0 {
        seq![]
    } else {
        proof {
            lemma_trimmed_start(s);
            lemma_word_len(t);
        }
        seq![t.take(word_len(t))] + words(t.skip(word_len(t)))
    }
}

/// The views of a list of strings.
pub open spec fn views(v: Seq<String>) -> Seq<Seq<char>> {
    v.map_values(|x: String| x@)
}

/// Pushing a string pushes its view.
pub proof fn lemma_views_push(v: Seq<String>, x: String)
    ensures
        views(v.push(x)) == views(v).push(x@),
{
    assert(views(v.push(x)) =~= views(v).push(x@));
}

/// Splits `s` at every `c`.
pub fn split(s: &str, c: char) -> (r: Vec<String>)
    ensures
        views(r@) == pieces(s@, c),
        r@.len() > 0,
{
    let a = chars_of(s);
    let mut r: Vec<String> = Vec::new();
    let mut i: usize = 0;
    assert(a@.skip(0) =~= s@);
    loop
        invariant_except_break
            i <= a@.len(),
            a@ == s@,
            pieces(s@, c) =~= views(r@) + pieces(a@.skip(i as int), c),
        ensures
            views(r@) == pieces(s@, c),
            r@.len() > 0,
        decreases a@.len() - i,
    {
        let k = find_char(&a, i, c);
        let ghost t = a@.skip(i as int);
        let ghost before = r@;
        let piece = string_of(&a, i, k);
        proof {
            lemma_upto(t, c);
            assert(piece@ =~= t.take(k - i));
            lemma_views_push(before, piece);
        }
        r.push(piece);
        if k == a.len() {
            assert(t.take(k - i) =~= t);
            assert(views(r@) =~= pieces(s@, c));
            break;
        }
        proof {
            assert(t.skip(k - i + 1) =~= a@.skip(k + 1));
            assert(pieces(t, c) =~= seq![t.take(k - i)] + pieces(a@.skip(k + 1), c));
        }
        i = k + 1;
    }
    r
}

/// The lines of `s`.
pub fn lines(s: &str) -> (r: Vec<String>)
    ensures
        views(r@) == text_lines(s@),
{
    let a = chars_of(s);
    let mut r: Vec<String> = Vec::new();
    let mut i: usize = 0;
    assert(a@.skip(0) =~= s@);
    while i < a.len()
        invariant
            i <= a@.len(),
            a@ == s@,
            text_lines(s@) =~= views(r@) + text_lines(a@.skip(i as int)),
        decreases a@.len() - i,
    {
        let k = find_char(&a, i, '\n');
        let ghost t = a@.skip(i as int);
        let ghost before = r@;
        proof {
            lemma_upto(t, '\n');
        }
        if k == a.len() {
            let piece = string_of(&a, i, k);
            proof {
                assert(piece@ =~= t);
                lemma_views_push(before, piece);
                assert(a@.skip(k as int).len() == 0);
            }
            r.push(piece);
            i = k;
        } else {
            let e = if k > i && a[k - 1] == '\r' { k - 1 } else { k };
            let piece = string_of(&a, i, e);
            proof {
                assert(piece@ =~= without_cr(t.take(k - i)));
                lemma_views_push(before, piece);
                assert(t.skip(k - i + 1) =~= a@.skip(k + 1));
                assert(text_lines(t) =~= seq![without_cr(t.take(k - i))] + text_lines(
                    a@.skip(k + 1),
                ));
            }
            r.push(piece);
            i = k + 1;
        }
    }
    assert(a@.skip(i as int).len() == 0);
    r
}

/// The words of `s`.
pub fn split_whitespace(s: &str) -> (r: Vec<String>)
    ensures
        views(r@) == words(s@),
{
    let a = chars_of(s);
    let mut r: Vec<String> = Vec::new();
    let mut i: usize = skip_white(&a, 0);
    assert(a@.skip(0) =~= s@);
    proof {
        lemma_trimmed_start(s@);
        let t = a@.skip(i as int);
        assert(trimmed_start(t) == t);
    }
    while i < a.len()
        invariant
            i <= a@.len(),
            a@ == s@,
            i < a@.len() ==> !is_white(a@[i as int]),
            words(s@) =~= views(r@) + words(a@.skip(i as int)),
        decreases a@.len() - i,
    {
        let ghost t = a@.skip(i as int);
        let ghost before = r@;
        let mut k: usize = i;
        while k < a.len() && !white(a[k])
            invariant
                i <= k <= a@.len(),
                t == a@.skip(i as int),
                word_len(t) == (k - i) + word_len(a@.skip(k as int)),
            decreases a@.len() - k,
        {
            assert(a@.skip(k as int).skip(1) =~= a@.skip(k + 1));
            k += 1;
        }
        assert(word_len(t) == k - i);
        let piece = string_of(&a, i, k);
        proof {
            assert(trimmed_start(t) == t);
            assert(piece@ =~= t.take(k - i));
            lemma_views_push(before, piece);
            assert(t.skip(k - i) =~= a@.skip(k as int));
        }
        r.push(piece);
        let n = skip_white(&a, k);
        proof {
            lemma_word_len(t);
            lemma_trimmed_start(a@.skip(k as int));
            let u = a@.skip(n as int);
            assert(trimmed_start(u) == u);
            assert(words(a@.skip(k as int)) == words(u));
        }
        i = n;
    }
    assert(a@.skip(i as int).len() == 0);
    r
}

// ---------------------------------------------------------------------------
// Numbers
// ---------------------------------------------------------------------------

/// The character of a digit below 16, letters in lower case.
pub open spec fn digit(d: nat) -> char {
    if d < 10 {
        (48 + d) as char
    } else {
        (87 + d) as char
    }
}

/// `n` written in the given base, without leading zeros.
pub open spec fn numeral(n: nat, base: nat) -> Seq<char>
    decreases n,
{
    if base < 2 || n < base {
        seq![digit(n)]
    } else {
        proof {
            assert(n / base < n) by (nonlinear_arith)
                requires
                    n >= base,
                    base >= 2,
            ;
        }
        numeral(n / base, base).push(digit(n % base))
    }
}

/// `n` in decimal.
pub open spec fn decimal(n: nat) -> Seq<char> {
    numeral(n, 10)
}

/// `n` in lower-case hexadecimal.
pub open spec fn hexadecimal(n: nat) -> Seq<char> {
    numeral(n, 16)
}

/// A byte as two lower-case hexadecimal digits.
pub open spec fn hex_byte(b: u8) -> Seq<char> {
    seq![digit((b / 16) as nat), digit((b % 16) as nat)]
}

/// Bytes as hexadecimal digits, two for each.
pub open spec fn hex_bytes(b: Seq<u8>) -> Seq<char>
    decreases b.len(),
{
    if b.len() == 0 {
        seq![]
    } else {
        hex_bytes(b.drop_last()) + hex_byte(b.last())
    }
}

/// The character of a digit below 16.
pub fn digit_char(d: u8) -> (c: char)
    requires
        d < 16,
    ensures
        c == digit(d as nat),
{
    if d < 10 {
        (48 + d) as char
    } else {
        (87 + d) as char
    }
}

/// Appends `n` in the given base.
pub fn push_numeral(out: &mut String, n: u64, base: u64)
    requires
        2 <= base <= 16,
    ensures
        final(out)@ == old(out)@ + numeral(n as nat, base as nat),
    decreases n,
{
    if n < base {
        out.push(digit_char(n as u8));
        assert(out@ =~= old(out)@ + numeral(n as nat, base as nat));
    } else {
        assert(n / base < n) by (nonlinear_arith)
            requires
                n >= base,
                base >= 2,
        ;
        push_numeral(out, n / base, base);
        assert(n % base < base) by (nonlinear_arith)
            requires
                base >= 2,
        ;
        out.push(digit_char((n % base) as u8));
        assert(out@ =~= old(out)@ + numeral(n as nat, base as nat));
    }
}

/// `n` in decimal.
pub fn decimal_of(n: u64) -> (r: String)
    ensures
        r@ == decimal(n as nat),
{
    let mut r = String::new();
    push_numeral(&mut r, n, 10);
    assert(r@ =~= decimal(n as nat));
    r
}

/// `n` in lower-case hexadecimal.
pub fn hex_of(n: u64) -> (r: String)
    ensures
        r@ == hexadecimal(n as nat),
{
    let mut r = String::new();
    push_numeral(&mut r, n, 16);
    assert(r@ =~= hexadecimal(n as nat));
    r
}

/// Appends a byte as two hexadecimal digits.
pub fn push_hex_byte(out: &mut String, b: u8)
    ensures
        final(out)@ == old(out)@ + hex_byte(b),
{
    out.push(digit_char(b / 16));
    out.push(digit_char(b % 16));
    assert(out@ =~= old(out)@ + hex_byte(b));
}

/// Bytes as lower-case hexadecimal digits.
pub fn hex_string(b: &[u8]) -> (r: String)
    ensures
        r@ == hex_bytes(b@),
{
    let mut r = String::new();
    let mut i: usize = 0;
    while i < b.len()
        invariant
            i <= b@.len(),
            r@ == hex_bytes(b@.take(i as int)),
        decreases b@.len() - i,
    {
        assert(b@.take(i + 1).drop_last() =~= b@.take(i as int));
        push_hex_byte(&mut r, b[i]);
        i += 1;
    }
    assert(b@.take(i as int) =~= b@);
    r
}

/// A character between `0` and `9`.
pub open spec fn is_digit(c: char) -> bool {
    '0' <= c <= '9'
}

/// All characters are decimal digits.
pub open spec fn all_digits(s: Seq<char>) -> bool {
    forall|i: int| 0 <= i < s.len() ==> is_digit(#[trigger] s[i])
}

/// The number that a sequence of decimal digits writes.
pub open spec fn digits_value(s: Seq<char>) -> nat
    decreases s.len(),
{
    if s.len() == 0 {
        0
    } else {
        digits_value(s.drop_last()) * 10 + (s.last() as u32 - 48) as nat
    }
}

/// `s` without the plus sign that may precede a number.
pub open spec fn unsigned_part(s: Seq<char>) -> Seq<char> {
    if s.len() > 1 && s[0] == '+' {
        s.skip(1)
    } else {
        s
    }
}

/// The number up to `max` that `s` writes in decimal, if it does: digits,
/// at least one, after an optional plus sign.
pub open spec fn number_in(s: Seq<char>, max: nat) -> Option<nat> {
    let d = unsigned_part(s);
    if d.len() > 0 && all_digits(d) && digits_value(d) <= max {
        Some(digits_value(d))
    } else {
        None
    }
}

/// A number written in decimal reads as that number.
pub proof fn lemma_decimal_reads(n: nat)
    ensures
        decimal(n).len() > 0,
        all_digits(decimal(n)),
        digits_value(decimal(n)) == n,
        forall|max: nat| n <= max ==> #[trigger] number_in(decimal(n), max) == Some(n),
    decreases n,
{
    let d = decimal(n);
    if n < 10 {
        assert(d =~= seq![digit(n)]);
        assert(d.drop_last() =~= Seq::<char>::empty());
        assert(digits_value(d.drop_last()) == 0);
    } else {
        lemma_decimal_reads(n / 10);
        assert(d.drop_last() =~= decimal(n / 10));
        assert forall|i: int| 0 <= i < d.len() implies is_digit(#[trigger] d[i]) by {
            if i < d.len() - 1 {
                assert(d[i] == decimal(n / 10)[i]);
            }
        }
    }
    assert(is_digit(d[0]));
}

/// A text that neither starts nor ends with white space stays as it is.
pub proof fn lemma_trimmed_already(s: Seq<char>)
    requires
        s.len() > 0,
        !is_white(s[0]),
        !is_white(s.last()),
    ensures
        trimmed(s) == s,
{
}

/// A longer run of digits writes no smaller number.
proof fn lemma_digits_value_take(s: Seq<char>, i: int)
    requires
        0 <= i <= s.len(),
    ensures
        digits_value(s.take(i)) <= digits_value(s),
    decreases s.len(),
{
    if i == s.len() {
        assert(s.take(i) =~= s);
    } else {
        lemma_digits_value_take(s.drop_last(), i);
        assert(s.drop_last().take(i) =~= s.take(i));
    }
}

/// The number up to `max` that `s` writes in decimal.
pub fn parse_number(s: &str, max: u64) -> (r: Option<u64>)
    ensures
        match r {
            Some(n) => number_in(s@, max as nat) == Some(n as nat),
            None => number_in(s@, max as nat) is None,
        },
{
    let a = chars_of(s);
    let from: usize = if a.len() > 1 && a[0] == '+' { 1 } else { 0 };
    let ghost d = unsigned_part(s@);
    assert(d =~= a@.skip(from as int));
    if a.len() == 0 {
        return None;
    }
    let mut v: u64 = 0;
    let mut i: usize = from;
    while i < a.len()
        invariant
            from <= i <= a@.len(),
            a@ == s@,
            a@.len() > 0,
            d == unsigned_part(s@),
            d == a@.skip(from as int),
            all_digits(d.take(i - from)),
            v as nat == digits_value(d.take(i - from)),
            v <= max,
        decreases a@.len() - i,
    {
        let c = a[i];
        assert(d[i - from] == c);
        if !('0' <= c && c <= '9') {
            return None;
        }
        let x: u64 = (c as u32 - 48) as u64;
        proof {
            assert(d.take(i + 1 - from).drop_last() =~= d.take(i - from));
            lemma_digits_value_take(d, i + 1 - from);
        }
        if v > max / 10 || x > max - v * 10 {
            return None;
        }
        v = v * 10 + x;
        i += 1;
    }
    assert(d.take(i - from) =~= d);
    Some(v)
}

// ---------------------------------------------------------------------------
// Replacing
// ---------------------------------------------------------------------------

/// `s` with every `c` replaced by `w`.
pub open spec fn replaced(s: Seq<char>, c: char, w: Seq<char>) -> Seq<char>
    decreases s.len(),
{
    if s.len() == 0 {
        seq![]
    } else if s.last() == c {
        replaced(s.drop_last(), c, w) + w
    } else {
        replaced(s.drop_last(), c, w).push(s.last())
    }
}

/// Replaces every `c` in `s` by `w`.
pub fn replace(s: &str, c: char, w: &str) -> (r: String)
    ensures
        r@ == replaced(s@, c, w@),
{
    let a = chars_of(s);
    let mut r = String::new();
    let mut i: usize = 0;
    while i < a.len()
        invariant
            i <= a@.len(),
            a@ == s@,
            r@ == replaced(s@.take(i as int), c, w@),
        decreases a@.len() - i,
    {
        assert(s@.take(i + 1).drop_last() =~= s@.take(i as int));
        if a[i] == c {
            r.append(w);
        } else {
            r.push(a[i]);
        }
        i += 1;
    }
    assert(s@.take(i as int) =~= s@);
    r
}

/// `list` joined with `sep` between its members.
pub open spec fn joined(list: Seq<Seq<char>>, sep: Seq<char>) -> Seq<char>
    decreases list.len(),
{
    if list.len() == 0 {
        seq![]
    } else if list.len() == 1 {
        list[0]
    } else {
        joined(list.drop_last(), sep) + sep + list.last()
    }
}

/// Joins strings with `sep` between them.
pub fn join_all(list: &Vec<String>, sep: &str) -> (r: String)
    ensures
        r@ == joined(views(list@), sep@),
{
    let mut r = String::new();
    let mut i: usize = 0;
    while i < list.len()
        invariant
            i <= list@.len(),
            r@ == joined(views(list@).take(i as int), sep@),
        decreases list@.len() - i,
    {
        proof {
            assert(views(list@).take(i + 1).drop_last() =~= views(list@).take(i as int));
        }
        if i > 0 {
            r.append(sep);
        }
        r.append(list[i].as_str());
        assert(r@ =~= joined(views(list@).take(i + 1), sep@));
        i += 1;
    }
    assert(views(list@).take(i as int) =~= views(list@));
    r
}

/// `std::str::from_utf8`: the text that the bytes encode, if they are valid
/// UTF-8.
#[verifier::external_body]
pub(crate) fn utf8_text(b: &[u8]) -> (r: Option<String>)
    ensures
        match r {
            Some(s) => valid_utf8(b@) && s@ == decode_utf8(b@),
            None => !valid_utf8(b@),
        },
{
    match std::str::from_utf8(b) {
        Ok(s) => Some(s.to_string()),
        Err(_) => None,
    }
}

/// `char::from_u32`: the character with this code point, if it is one.
pub assume_specification[ char::from_u32 ](i: u32) -> (r: Option<char>)
    ensures
        r == (if i <= 0xD7FF || 0xE000 <= i <= 0x10FFFF {
            Some(i as char)
        } else {
            None
        }),
;

// ---------------------------------------------------------------------------
// Letter case
// ---------------------------------------------------------------------------

/// The capital of an ASCII letter; any other character itself.
pub open spec fn ascii_upper(c: char) -> char {
    if 'a' <= c <= 'z' {
        (c as u32 - 32) as char
    } else {
        c
    }
}

/// The small form of an ASCII letter; any other character itself.
pub open spec fn ascii_lower(c: char) -> char {
    if 'A' <= c <= 'Z' {
        (c as u32 + 32) as char
    } else {
        c
    }
}

/// The texts differ in the case of ASCII letters at most.
pub open spec fn same_folded(a: Seq<char>, b: Seq<char>) -> bool {
    a.map_values(|c: char| ascii_lower(c)) == b.map_values(|c: char| ascii_lower(c))
}

/// The capital form of a text.
pub uninterp spec fn uppercased(s: Seq<char>) -> Seq<char>;

/// The small form of a text.
pub uninterp spec fn lowercased(s: Seq<char>) -> Seq<char>;

/// A text in capital letters: letter by letter on ASCII text, and by the full
/// case mapping beyond it.
pub open spec fn upper_form(s: Seq<char>) -> Seq<char> {
    if is_ascii_chars(s) {
        s.map_values(|c: char| ascii_upper(c))
    } else {
        uppercased(s)
    }
}

/// A text in small letters: letter by letter on ASCII text, and by the full
/// case mapping beyond it.
pub open spec fn lower_form(s: Seq<char>) -> Seq<char> {
    if is_ascii_chars(s) {
        s.map_values(|c: char| ascii_lower(c))
    } else {
        lowercased(s)
    }
}

/// `str::to_uppercase`: the capital form of a text. On ASCII text it takes
/// each letter for itself.
#[verifier::external_body]
pub(crate) fn to_uppercase(s: &str) -> (r: String)
    ensures
        r@ == uppercased(s@),
        is_ascii_chars(s@) ==> r@ == s@.map_values(|c: char| ascii_upper(c)),
{
    s.to_uppercase()
}

/// `str::to_lowercase`: the small form of a text. On ASCII text it takes
/// each letter for itself.
#[verifier::external_body]
pub(crate) fn to_lowercase(s: &str) -> (r: String)
    ensures
        r@ == lowercased(s@),
        is_ascii_chars(s@) ==> r@ == s@.map_values(|c: char| ascii_lower(c)),
{
    s.to_lowercase()
}

fn lower(c: char) -> (r: char)
    ensures
        r == ascii_lower(c),
{
    if 'A' <= c && c <= 'Z' {
        (c as u8 + 32) as char
    } else {
        c
    }
}

/// Whether two texts differ in the case of ASCII letters at most.
pub fn eq_ignore_ascii_case(a: &str, b: &str) -> (r: bool)
    ensures
        r == same_folded(a@, b@),
{
    let x = chars_of(a);
    let y = chars_of(b);
    let ghost fa = a@.map_values(|c: char| ascii_lower(c));
    let ghost fb = b@.map_values(|c: char| ascii_lower(c));
    if x.len() != y.len() {
        assert(fa.len() != fb.len());
        return false;
    }
    let mut i: usize = 0;
    while i < x.len()
        invariant
            i <= x@.len(),
            x@.len() == y@.len(),
            x@ == a@,
            y@ == b@,
            fa == a@.map_values(|c: char| ascii_lower(c)),
            fb == b@.map_values(|c: char| ascii_lower(c)),
            forall|j: int| 0 <= j < i ==> fa[j] == fb[j],
        decreases x@.len() - i,
    {
        if lower(x[i]) != lower(y[i]) {
            assert(fa[i as int] != fb[i as int]);
            return false;
        }
        i += 1;
    }
    assert(fa =~= fb);
    true
}

} // verus!
