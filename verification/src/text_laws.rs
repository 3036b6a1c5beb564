//! What holds of the text functions for all texts.

use crate::text::{
    all_digits, ascii_lower, ascii_upper, decimal, digit, digits_value, ends, hex_byte, hex_bytes,
    hexadecimal, is_digit, is_white, joined, lemma_trimmed_start, lemma_upto, lemma_word_len,
    lower_form, number_in, occurs, occurs_at, pieces, replaced, same_folded, starts, strip_all,
    text_lines, trimmed, trimmed_end, trimmed_start, unsigned_part, upper_form, upto, word_len,
    words,
};
use vstd::prelude::*;
use vstd::utf8::*;

verus! {

// ---------------------------------------------------------------------------
// Parts of a text
// ---------------------------------------------------------------------------

/// A text starts with `p` exactly if something follows `p` in it, ends with
/// `p` exactly if something precedes it, and holds `p` exactly if both do.
pub proof fn lemma_parts(s: Seq<char>, p: Seq<char>)
    ensures
        starts(s, p) <==> exists|b: Seq<char>| s == #[trigger] (p + b),
        ends(s, p) <==> exists|a: Seq<char>| s == #[trigger] (a + p),
        occurs(s, p) <==> exists|a: Seq<char>, b: Seq<char>| s == #[trigger] (a + p + b),
{
    let n = p.len() as int;
    if starts(s, p) {
        assert(s =~= p + s.skip(n));
    }
    if exists|b: Seq<char>| s == #[trigger] (p + b) {
        let b = choose|b: Seq<char>| s == #[trigger] (p + b);
        assert(s.subrange(0, n) =~= p);
    }
    if ends(s, p) {
        assert(s =~= s.take(s.len() - n) + p);
    }
    if exists|a: Seq<char>| s == #[trigger] (a + p) {
        let a = choose|a: Seq<char>| s == #[trigger] (a + p);
        assert(s.subrange(s.len() - n, s.len() as int) =~= p);
    }
    if occurs(s, p) {
        let i = choose|i: int| occurs_at(s, p, i);
        assert(s =~= s.take(i) + p + s.skip(i + n));
    }
    if exists|a: Seq<char>, b: Seq<char>| s == #[trigger] (a + p + b) {
        let (a, b) = choose|a: Seq<char>, b: Seq<char>| s == #[trigger] (a + p + b);
        assert(s.subrange(a.len() as int, a.len() + n) =~= p);
        assert(occurs_at(s, p, a.len() as int));
    }
}

/// Every leading copy of a prefix is removed, and nothing else.
pub proof fn lemma_strip_all(s: Seq<char>, p: Seq<char>)
    requires
        p.len() > 0,
    ensures
        strip_all(p + s, p) == strip_all(s, p),
        !(exists|b: Seq<char>| s == #[trigger] (p + b)) ==> strip_all(s, p) == s,
{
    let n = p.len() as int;
    assert((p + s).subrange(0, n) =~= p);
    assert((p + s).skip(n) =~= s);
    lemma_parts(s, p);
}

/// The characters of ASCII that are white space.
pub proof fn lemma_ascii_white(c: char)
    requires
        c <= '\u{7f}',
    ensures
        is_white(c) <==> c == ' ' || c == '\t' || c == '\n' || c == '\r' || c == '\u{b}' || c
            == '\u{c}',
{
}

spec fn all_white(s: Seq<char>) -> bool {
    forall|i: int| 0 <= i < s.len() ==> is_white(#[trigger] s[i])
}

proof fn lemma_skip_white(w: Seq<char>, s: Seq<char>)
    requires
        all_white(w),
    ensures
        trimmed_start(w + s) == trimmed_start(s),
    decreases w.len(),
{
    if w.len() == 0 {
        assert(w + s =~= s);
    } else {
        assert(is_white(w[0]));
        assert((w + s).skip(1) =~= w.skip(1) + s);
        assert forall|i: int| 0 <= i < w.skip(1).len() implies is_white(#[trigger] w.skip(1)[i]) by {
            assert(w.skip(1)[i] == w[i + 1]);
        }
        lemma_skip_white(w.skip(1), s);
    }
}

proof fn lemma_drop_white(s: Seq<char>, w: Seq<char>)
    requires
        all_white(w),
    ensures
        trimmed_end(s + w) == trimmed_end(s),
    decreases w.len(),
{
    if w.len() == 0 {
        assert(s + w =~= s);
    } else {
        let v = w.drop_last();
        assert(is_white(w[w.len() - 1]));
        assert((s + w).drop_last() =~= s + v);
        assert forall|i: int| 0 <= i < v.len() implies is_white(#[trigger] v[i]) by {
            assert(v[i] == w[i]);
        }
        lemma_drop_white(s, v);
    }
}

/// White space around a text goes, and none inside it.
pub proof fn lemma_trimmed(before: Seq<char>, s: Seq<char>, after: Seq<char>)
    requires
        forall|i: int| 0 <= i < before.len() ==> is_white(#[trigger] before[i]),
        forall|i: int| 0 <= i < after.len() ==> is_white(#[trigger] after[i]),
        s.len() > 0 ==> !is_white(s[0]) && !is_white(s.last()),
    ensures
        trimmed(before + s + after) == s,
{
    assert(before + s + after =~= before + (s + after));
    lemma_skip_white(before, s + after);
    if s.len() == 0 {
        assert(s + after =~= after + Seq::<char>::empty());
        lemma_skip_white(after, Seq::empty());
        assert(trimmed_start(Seq::<char>::empty()) =~= Seq::<char>::empty());
        assert(s =~= Seq::<char>::empty());
    } else {
        assert((s + after)[0] == s[0]);
        lemma_drop_white(s, after);
    }
}

/// The pieces of a text, with the separator between them, are the text, and
/// no piece holds the separator.
pub proof fn lemma_pieces(s: Seq<char>, c: char)
    ensures
        pieces(s, c).len() > 0,
        joined(pieces(s, c), seq![c]) == s,
        forall|i: int, k: int|
            0 <= i < pieces(s, c).len() && 0 <= k < pieces(s, c)[i].len() ==> #[trigger] pieces(
                s,
                c,
            )[i][k] != c,
    decreases s.len(),
{
    let k = upto(s, c);
    lemma_upto(s, c);
    if k < s.len() {
        let rest = s.skip(k + 1);
        let p = pieces(rest, c);
        lemma_pieces(rest, c);
        lemma_joined_front(s.take(k), p, seq![c]);
        assert(s =~= s.take(k) + seq![c] + rest);
        assert forall|i: int, j: int|
            0 <= i < pieces(s, c).len() && 0 <= j < pieces(s, c)[i].len() implies #[trigger] pieces(
            s,
            c,
        )[i][j] != c by {
            if i > 0 {
                assert(pieces(s, c)[i] == p[i - 1]);
                assert(p[i - 1][j] != c);
            }
        }
    }
}

/// Texts without the separator, joined with it, fall into the same texts.
pub proof fn lemma_joined_pieces(list: Seq<Seq<char>>, c: char)
    requires
        list.len() > 0,
        forall|i: int, k: int| 0 <= i < list.len() && 0 <= k < list[i].len() ==> #[trigger] list[i][k]
            != c,
    ensures
        pieces(joined(list, seq![c]), c) == list,
    decreases list.len(),
{
    let first = list[0];
    assert forall|k: int| 0 <= k < first.len() implies first[k] != c by {
        assert(list[0][k] != c);
    }
    if list.len() == 1 {
        lemma_upto(first, c);
        assert(list =~= seq![first]);
    } else {
        let rest = list.skip(1);
        let s = joined(list, seq![c]);
        let n = first.len() as int;
        assert(list =~= seq![first] + rest);
        lemma_joined_front(first, rest, seq![c]);
        assert forall|i: int, k: int| 0 <= i < rest.len() && 0 <= k < rest[i].len() implies
            #[trigger] rest[i][k] != c by {
            assert(rest[i] == list[i + 1]);
            assert(list[i + 1][k] != c);
        }
        lemma_joined_pieces(rest, c);
        assert(s[n] == c);
        lemma_first_at(s, c, n);
        assert(s.take(n) =~= first);
        assert(s.skip(n + 1) =~= joined(rest, seq![c]));
        assert(pieces(s, c) =~= list);
    }
}

/// A list of one text is joined to that text; a text put behind others, or
/// before them, is separated from them.
pub proof fn lemma_joined(list: Seq<Seq<char>>, s: Seq<char>, sep: Seq<char>)
    ensures
        joined(seq![s], sep) == s,
        list.len() > 0 ==> joined(list.push(s), sep) == joined(list, sep) + sep + s,
        joined(Seq::<Seq<char>>::empty(), sep) == Seq::<char>::empty(),
{
    assert(list.push(s).drop_last() =~= list);
}

proof fn lemma_joined_front(s: Seq<char>, list: Seq<Seq<char>>, sep: Seq<char>)
    requires
        list.len() > 0,
    ensures
        joined(seq![s] + list, sep) == s + sep + joined(list, sep),
    decreases list.len(),
{
    let all = seq![s] + list;
    if list.len() == 1 {
        assert(all.drop_last() =~= seq![s]);
        assert(joined(all.drop_last(), sep) == s);
        assert(all.last() == list[0]);
    } else {
        assert(all.drop_last() =~= seq![s] + list.drop_last());
        lemma_joined_front(s, list.drop_last(), sep);
        assert(joined(all, sep) =~= s + sep + joined(list, sep));
    }
}

/// Lines that hold no line feed and do not end in a carriage return come back
/// from the text that has each of them with a line feed behind it, whether a
/// carriage return stands before that or not.
pub proof fn lemma_lines(line: Seq<char>, rest: Seq<char>)
    requires
        forall|i: int| 0 <= i < line.len() ==> line[i] != '\n',
        line.len() > 0 ==> line.last() != '\r',
    ensures
        text_lines(line + seq!['\n'] + rest) == seq![line] + text_lines(rest),
        text_lines(line + seq!['\r', '\n'] + rest) == seq![line] + text_lines(rest),
        line.len() > 0 ==> text_lines(line) == seq![line],
        text_lines(Seq::<char>::empty()) == Seq::<Seq<char>>::empty(),
{
    let s = line + seq!['\n'] + rest;
    lemma_first_at(s, '\n', line.len() as int);
    assert(s.take(line.len() as int) =~= line);
    assert(s.skip(line.len() + 1int) =~= rest);
    let cr = line + seq!['\r'];
    let t = line + seq!['\r', '\n'] + rest;
    lemma_first_at(t, '\n', cr.len() as int);
    assert(t.take(cr.len() as int) =~= cr);
    assert(cr.drop_last() =~= line);
    assert(t.skip(cr.len() + 1int) =~= rest);
    lemma_upto(line, '\n');
}

proof fn lemma_first_at(s: Seq<char>, c: char, n: int)
    requires
        0 <= n < s.len(),
        s[n] == c,
        forall|i: int| 0 <= i < n ==> s[i] != c,
    ensures
        upto(s, c) == n,
{
    lemma_upto(s, c);
}

proof fn lemma_start_kept(a: Seq<char>, b: Seq<char>)
    requires
        trimmed_start(a).len() > 0,
    ensures
        trimmed_start(a + b) == trimmed_start(a) + b,
    decreases a.len(),
{
    if is_white(a[0]) {
        assert((a + b).skip(1) =~= a.skip(1) + b);
        lemma_start_kept(a.skip(1), b);
    }
}

proof fn lemma_start_gone(a: Seq<char>, b: Seq<char>)
    requires
        trimmed_start(a).len() == 0,
    ensures
        trimmed_start(a + b) == trimmed_start(b),
    decreases a.len(),
{
    if a.len() == 0 {
        assert(a + b =~= b);
    } else {
        assert((a + b).skip(1) =~= a.skip(1) + b);
        lemma_start_gone(a.skip(1), b);
    }
}

proof fn lemma_word_kept(a: Seq<char>, c: char, b: Seq<char>)
    requires
        is_white(c),
    ensures
        word_len(a + seq![c] + b) == word_len(a),
    decreases a.len(),
{
    let s = a + seq![c] + b;
    if a.len() == 0 {
        assert(s[0] == c);
    } else if !is_white(a[0]) {
        assert(s[0] == a[0]);
        assert(s.skip(1) =~= a.skip(1) + seq![c] + b);
        lemma_word_kept(a.skip(1), c, b);
    } else {
        assert(s[0] == a[0]);
    }
}

/// White space separates words, and nothing else does.
pub proof fn lemma_words(a: Seq<char>, c: char, b: Seq<char>)
    requires
        is_white(c),
    ensures
        words(a + seq![c] + b) == words(a) + words(b),
        a.len() > 0 && (forall|i: int| 0 <= i < a.len() ==> !is_white(#[trigger] a[i])) ==> words(a)
            == seq![a],
        words(Seq::<char>::empty()) == Seq::<Seq<char>>::empty(),
    decreases a.len(),
{
    let s = a + seq![c] + b;
    let t = trimmed_start(a);
    assert(s =~= a + (seq![c] + b));
    lemma_trimmed_start(a);
    assert(trimmed_start(Seq::<char>::empty()).len() == 0);
    if t.len() == 0 {
        lemma_start_gone(a, seq![c] + b);
        assert((seq![c] + b).skip(1) =~= b);
        assert(trimmed_start(s) == trimmed_start(b));
        assert(words(a) =~= Seq::<Seq<char>>::empty());
        assert(words(s) =~= words(a) + words(b));
    } else {
        let n = word_len(t);
        lemma_start_kept(a, seq![c] + b);
        lemma_word_len(t);
        assert(t + (seq![c] + b) =~= t + seq![c] + b);
        lemma_word_kept(t, c, b);
        let u = t + seq![c] + b;
        assert(trimmed_start(s) == u);
        assert(u.take(n) =~= t.take(n));
        assert(u.skip(n) =~= t.skip(n) + seq![c] + b);
        lemma_words(t.skip(n), c, b);
        assert(words(s) =~= words(a) + words(b));
    }
    if a.len() > 0 && (forall|i: int| 0 <= i < a.len() ==> !is_white(#[trigger] a[i])) {
        assert(!is_white(a[0]));
        assert(t == a);
        lemma_one_word(a);
        assert(a.take(a.len() as int) =~= a);
        assert(a.skip(a.len() as int) =~= Seq::<char>::empty());
        assert(words(a.skip(a.len() as int)) =~= Seq::<Seq<char>>::empty());
        assert(words(a) =~= seq![a]);
    }
}

proof fn lemma_one_word(a: Seq<char>)
    requires
        forall|i: int| 0 <= i < a.len() ==> !is_white(#[trigger] a[i]),
    ensures
        word_len(a) == a.len(),
    decreases a.len(),
{
    if a.len() > 0 {
        assert(!is_white(a[0]));
        assert forall|i: int| 0 <= i < a.skip(1).len() implies !is_white(#[trigger] a.skip(1)[i]) by {
            assert(a.skip(1)[i] == a[i + 1]);
        }
        lemma_one_word(a.skip(1));
    }
}

/// What is replaced in a text is what is replaced in its parts; of one
/// character, the one that is looked for and no other.
pub proof fn lemma_replaced(a: Seq<char>, b: Seq<char>, x: char, c: char, w: Seq<char>)
    ensures
        replaced(a + b, c, w) == replaced(a, c, w) + replaced(b, c, w),
        replaced(seq![x], c, w) == (if x == c {
            w
        } else {
            seq![x]
        }),
    decreases b.len(),
{
    let one = seq![x];
    assert(one.drop_last() =~= Seq::<char>::empty());
    assert(replaced(one.drop_last(), c, w) =~= Seq::<char>::empty());
    assert(replaced(one, c, w) =~= (if x == c {
        w
    } else {
        seq![x]
    }));
    if b.len() == 0 {
        assert(a + b =~= a);
        assert(replaced(b, c, w) =~= Seq::<char>::empty());
        assert(replaced(a + b, c, w) =~= replaced(a, c, w) + replaced(b, c, w));
    } else {
        assert((a + b).drop_last() =~= a + b.drop_last());
        assert((a + b).last() == b.last());
        lemma_replaced(a, b.drop_last(), x, c, w);
        assert(replaced(a + b, c, w) =~= replaced(a, c, w) + replaced(b, c, w));
    }
}

// ---------------------------------------------------------------------------
// Numbers
// ---------------------------------------------------------------------------

/// A digit more makes a number ten times as large, and that digit larger.
pub proof fn lemma_decimal_step(n: nat, d: nat)
    requires
        d < 10,
    ensures
        decimal(d) == seq![(48 + d) as char],
        n > 0 ==> decimal(10 * n + d) == decimal(n) + decimal(d),
{
    assert((10 * n + d) / 10 == n);
    assert((10 * n + d) % 10 == d);
    if n > 0 {
        assert(decimal(10 * n + d) =~= decimal(n) + decimal(d));
    }
}

/// A hexadecimal digit more makes a number sixteen times as large, and that
/// digit larger; the digits above nine are small letters.
pub proof fn lemma_hexadecimal_step(n: nat, d: nat)
    requires
        d < 16,
    ensures
        hexadecimal(d) == seq![
            if d < 10 {
                (48 + d) as char
            } else {
                (97 + (d - 10)) as char
            },
        ],
        n > 0 ==> hexadecimal(16 * n + d) == hexadecimal(n) + hexadecimal(d),
{
    assert((16 * n + d) / 16 == n);
    assert((16 * n + d) % 16 == d);
    if n > 0 {
        assert(hexadecimal(16 * n + d) =~= hexadecimal(n) + hexadecimal(d));
    }
}

/// The value of a hexadecimal digit.
pub open spec fn nibble(c: char) -> int {
    if '0' <= c <= '9' {
        c as int - 48
    } else {
        c as int - 87
    }
}

/// The hexadecimal form of bytes has two digits for each, the high one first,
/// from which the byte can be had back.
pub proof fn lemma_hex_bytes(b: Seq<u8>, i: int)
    requires
        0 <= i < b.len(),
    ensures
        hex_bytes(b).len() == 2 * b.len(),
        nibble(hex_bytes(b)[2 * i]) * 16 + nibble(hex_bytes(b)[2 * i + 1]) == b[i],
        '0' <= hex_bytes(b)[2 * i] <= '9' || 'a' <= hex_bytes(b)[2 * i] <= 'f',
        '0' <= hex_bytes(b)[2 * i + 1] <= '9' || 'a' <= hex_bytes(b)[2 * i + 1] <= 'f',
    decreases b.len(),
{
    let pre = b.drop_last();
    crate::digest::lemma_hex_len(b);
    crate::digest::lemma_hex_len(pre);
    if i < pre.len() {
        lemma_hex_bytes(pre, i);
        assert(hex_bytes(b)[2 * i] == hex_bytes(pre)[2 * i]);
        assert(hex_bytes(b)[2 * i + 1] == hex_bytes(pre)[2 * i + 1]);
    } else {
        let h = hex_byte(b[i]);
        assert(hex_bytes(b)[2 * i] == h[0]);
        assert(hex_bytes(b)[2 * i + 1] == h[1]);
        assert(h[0] == digit((b[i] / 16) as nat));
        assert(h[1] == digit((b[i] % 16) as nat));
    }
}

/// A text is read as a number only if it is one: digits, after at most one
/// plus sign. A leading zero changes nothing, and neither does the sign.
pub proof fn lemma_number_in(s: Seq<char>, max: nat)
    ensures
        number_in(s, max) is Some ==> s.len() > 0 && number_in(s, max)->0 <= max && forall|i: int|
            0 <= i < s.len() ==> '0' <= #[trigger] s[i] <= '9' || i == 0 && s[i] == '+',
        s.len() > 0 && s[0] != '+' ==> number_in(seq!['+'] + s, max) == number_in(s, max),
{
    if number_in(s, max) is Some {
        let d = crate::text::unsigned_part(s);
        assert forall|i: int| 0 <= i < s.len() implies '0' <= #[trigger] s[i] <= '9' || i == 0 && s[i]
            == '+' by {
            if d.len() == s.len() {
                assert(d[i] == s[i]);
            } else if i > 0 {
                assert(d[i - 1] == s[i]);
            }
        }
    }
    if s.len() > 0 && s[0] != '+' {
        assert((seq!['+'] + s).skip(1) =~= s);
    }
}

// ---------------------------------------------------------------------------
// Letter case
// ---------------------------------------------------------------------------

/// The case of an ASCII letter does not count, and that of no other
/// character is touched.
pub proof fn lemma_letter_case(c: char, d: char)
    ensures
        'a' <= c <= 'z' ==> ascii_upper(c) as int == c as int - 32 && ascii_lower(ascii_upper(c))
            == c,
        'A' <= c <= 'Z' ==> ascii_lower(c) as int == c as int + 32 && ascii_upper(ascii_lower(c))
            == c,
        !('a' <= c <= 'z') ==> ascii_upper(c) == c,
        !('A' <= c <= 'Z') ==> ascii_lower(c) == c,
        same_folded(seq![c], seq![d]) <==> c == d || ascii_upper(c) == d || ascii_lower(c) == d
            || ascii_upper(d) == c || ascii_lower(d) == c,
{
    let f = |x: char| ascii_lower(x);
    let a = seq![c].map_values(f);
    let b = seq![d].map_values(f);
    assert(a[0] == ascii_lower(c));
    assert(b[0] == ascii_lower(d));
    if ascii_lower(c) == ascii_lower(d) {
        assert(a =~= b);
    }
}

/// Texts are the same but for letter case exactly if their characters are,
/// one by one.
pub proof fn lemma_same_folded(a: Seq<char>, b: Seq<char>)
    ensures
        same_folded(a, b) <==> a.len() == b.len() && forall|i: int|
            0 <= i < a.len() ==> ascii_lower(#[trigger] a[i]) == ascii_lower(b[i]),
{
    let f = |x: char| ascii_lower(x);
    let x = a.map_values(f);
    let y = b.map_values(f);
    if same_folded(a, b) {
        assert(x == y);
        assert forall|i: int| 0 <= i < a.len() implies ascii_lower(#[trigger] a[i]) == ascii_lower(
            b[i],
        ) by {
            assert(x[i] == y[i]);
        }
    }
    if a.len() == b.len() && forall|i: int|
        0 <= i < a.len() ==> ascii_lower(#[trigger] a[i]) == ascii_lower(b[i]) {
        assert(x =~= y);
    }
}

/// A digit behind a number makes it ten times as large and adds the digit,
/// unless that is over the limit. A sign alone is no number, and neither is
/// nothing.
pub proof fn lemma_number_step(s: Seq<char>, c: char, limit: nat, max: nat)
    requires
        '0' <= c <= '9',
    ensures
        number_in(seq![c], max) == (if c as int - 48 <= max {
            Some((c as int - 48) as nat)
        } else {
            None
        }),
        number_in(s, limit) matches Some(v) ==> number_in(s.push(c), max) == (if 10 * v + (c as int
            - 48) <= max {
            Some((10 * v + (c as int - 48)) as nat)
        } else {
            None
        }),
        number_in(Seq::empty(), max) is None,
        number_in(seq!['+'], max) is None,
{
    let one = seq![c];
    assert(one.drop_last() =~= Seq::<char>::empty());
    assert(digits_value(one.drop_last()) == 0);
    assert(is_digit(one[0]));
    assert(all_digits(one));
    assert(digits_value(one) == c as int - 48);
    assert(unsigned_part(one) == one);
    let plus = seq!['+'];
    assert(!is_digit(plus[0]));
    if number_in(s, limit) is Some {
        let d = unsigned_part(s);
        let t = s.push(c);
        if s.len() == 1 {
            assert(is_digit(s[0]));
        }
        assert(unsigned_part(t) =~= d.push(c));
        let e = d.push(c);
        assert(e.drop_last() =~= d);
        assert(e.last() == c);
        assert forall|i: int| 0 <= i < e.len() implies is_digit(#[trigger] e[i]) by {
            if i < d.len() {
                assert(is_digit(d[i]));
            }
        }
    }
}

/// On ASCII text the large and the small form change letter by letter.
pub proof fn lemma_forms(s: Seq<char>, i: int)
    requires
        is_ascii_chars(s),
        0 <= i < s.len(),
    ensures
        upper_form(s).len() == s.len(),
        lower_form(s).len() == s.len(),
        upper_form(s)[i] as int == (if 'a' <= s[i] <= 'z' {
            s[i] as int - 32
        } else {
            s[i] as int
        }),
        lower_form(s)[i] as int == (if 'A' <= s[i] <= 'Z' {
            s[i] as int + 32
        } else {
            s[i] as int
        }),
{
}

} // verus!
