//! Characters, strings and the escaping of markup characters.
//!
//! Text inside an HTML document is written with character references in
//! place of the characters that markup is made of. `escape_text` writes a text
//! that way and `unescape_text` reads it back.

use vstd::prelude::*;

verus! {

/// `String::push` appends one character to the string.
pub assume_specification[ String::push ](s: &mut String, c: char)
    ensures
        final(s)@ == old(s)@.push(c),
;

/// Whether `v` is the code of a character: at most 0x10FFFF and no surrogate.
pub open spec fn is_scalar(v: int) -> bool {
    0 <= v <= 0xD7FF || 0xE000 <= v <= 0x10FFFF
}

/// `char::from_u32` gives the character with code `v`, and `None` where `v` is
/// the code of no character.
pub assume_specification[ char::from_u32 ](v: u32) -> (c: Option<char>)
    ensures
        is_scalar(v as int) ==> c == Some(v as char),
        !is_scalar(v as int) ==> c is None,
;

/// The characters of `s`, in order.
pub fn chars_of(s: &str) -> (v: Vec<char>)
    ensures
        v@ == s@,
{
    let mut v: Vec<char> = Vec::new();
    for c in it: s.chars()
        invariant
            v@ == it.seq().take(it.index()),
    {
        v.push(c);
    }
    v
}

/// The string made of the characters `v[from..to]`.
pub fn string_of(v: &Vec<char>, from: usize, to: usize) -> (s: String)
    requires
        from <= to <= v.len(),
    ensures
        s@ == v@.subrange(from as int, to as int),
{
    let mut s = String::new();
    let mut i: usize = from;
    while i < to
        invariant
            from <= i <= to <= v.len(),
            s@ == v@.subrange(from as int, i as int),
        decreases to - i,
    {
        s.push(v[i]);
        i += 1;
    }
    s
}

/// Whether `s` holds `p` at index `i`.
pub open spec fn holds_at(s: Seq<char>, i: int, p: Seq<char>) -> bool {
    0 <= i && i + p.len() <= s.len() && s.subrange(i, i + p.len()) == p
}

/// Whether `v` holds the characters of `p` at index `i`.
pub fn starts_at(v: &Vec<char>, i: usize, p: &str) -> (b: bool)
    requires
        i <= v.len(),
    ensures
        b == holds_at(v@, i as int, p@),
{
    let pv = chars_of(p);
    if pv.len() > v.len() - i {
        return false;
    }
    let mut k: usize = 0;
    while k < pv.len()
        invariant
            i + pv.len() <= v.len(),
            k <= pv.len(),
            pv@ == p@,
            forall|j: int| 0 <= j < k ==> v@[i + j] == pv@[j],
        decreases pv.len() - k,
    {
        if v[i + k] != pv[k] {
            return false;
        }
        k += 1;
    }
    proof {
        assert(v@.subrange(i as int, i + pv.len()) =~= pv@);
    }
    true
}

/// Whether `a` and `b` are the same text.
pub fn same_text(a: &str, b: &str) -> (same: bool)
    ensures
        same == (a@ == b@),
{
    let v = chars_of(a);
    let w = chars_of(b);
    if v.len() != w.len() {
        return false;
    }
    let same = starts_at(&v, 0, b);
    proof {
        assert(v@.subrange(0, v.len() as int) =~= v@);
    }
    same
}

/// The first index from `i` on at which `s` holds `c`; the length of `s` where
/// there is none.
pub open spec fn find_char(s: Seq<char>, c: char, i: int) -> int
    decreases s.len() - i,
{
    if i < 0 || i >= s.len() {
        s.len() as int
    } else if s[i] == c {
        i
    } else {
        find_char(s, c, i + 1)
    }
}

/// The first index from `i` on at which `v` holds `c`.
pub fn index_of_char(v: &Vec<char>, c: char, i: usize) -> (r: usize)
    requires
        i <= v.len(),
    ensures
        r as int == find_char(v@, c, i as int),
        i <= r <= v.len(),
{
    let mut j: usize = i;
    while j < v.len() && v[j] != c
        invariant
            i <= j <= v.len(),
            find_char(v@, c, j as int) == find_char(v@, c, i as int),
        decreases v.len() - j,
    {
        j += 1;
    }
    j
}

/// A `find_char` result is an index from `i` on, or the length.
pub proof fn lemma_find_char_bounds(s: Seq<char>, c: char, i: int)
    requires
        0 <= i <= s.len(),
    ensures
        i <= find_char(s, c, i) <= s.len(),
        find_char(s, c, i) < s.len() ==> s[find_char(s, c, i)] == c,
        forall|k: int| i <= k < find_char(s, c, i) ==> s[k] != c,
    decreases s.len() - i,
{
    if i < s.len() && s[i] != c {
        lemma_find_char_bounds(s, c, i + 1);
    }
}

/// How many characters of a text a diagnostic quotes at most.
pub const QUOTED: usize = 32;

/// The first characters of `s`, at most `QUOTED` of them.
pub open spec fn excerpt_of(s: Seq<char>) -> Seq<char> {
    if s.len() <= QUOTED {
        s
    } else {
        s.take(QUOTED as int)
    }
}

/// The first characters of `s`, at most `QUOTED` of them.
pub fn excerpt(s: &str) -> (e: String)
    ensures
        e@ == excerpt_of(s@),
{
    let v = chars_of(s);
    let end = if v.len() <= QUOTED {
        v.len()
    } else {
        QUOTED
    };
    let e = string_of(&v, 0, end);
    e
}

/// What stands for the character `c` in escaped text.
pub open spec fn escape_char(c: char) -> Seq<char> {
    if c == '<' {
        "&lt;"@
    } else if c == '>' {
        "&gt;"@
    } else if c == '&' {
        "&amp;"@
    } else if c == '"' {
        "&quot;"@
    } else if c == '\'' {
        "&#39;"@
    } else {
        seq![c]
    }
}

/// The text `s` with each markup character replaced by its reference.
pub open spec fn escaped(s: Seq<char>) -> Seq<char>
    decreases s.len(),
{
    if s.len() == 0 {
        Seq::empty()
    } else {
        escape_char(s[0]) + escaped(s.skip(1))
    }
}

/// Escaping a text made of two parts escapes each part.
pub proof fn lemma_escaped_concat(a: Seq<char>, b: Seq<char>)
    ensures
        escaped(a + b) == escaped(a) + escaped(b),
    decreases a.len(),
{
    if a.len() > 0 {
        assert((a + b).skip(1) =~= a.skip(1) + b);
        lemma_escaped_concat(a.skip(1), b);
    }
}

/// Escaping one character more.
pub proof fn lemma_escaped_push(a: Seq<char>, c: char)
    ensures
        escaped(a.push(c)) == escaped(a) + escape_char(c),
{
    lemma_escaped_concat(a, seq![c]);
    assert(a.push(c) =~= a + seq![c]);
    assert(escaped(seq![c].skip(1)) =~= Seq::<char>::empty());
}

/// Writes `text` with references in place of its markup characters.
pub fn escape_text(text: &str) -> (out: String)
    ensures
        out@ == escaped(text@),
{
    let v = chars_of(text);
    let mut out = String::new();
    let mut i: usize = 0;
    while i < v.len()
        invariant
            i <= v.len(),
            out@ == escaped(v@.take(i as int)),
        decreases v.len() - i,
    {
        let c = v[i];
        proof {
            lemma_escaped_push(v@.take(i as int), c);
            assert(v@.take(i as int).push(c) =~= v@.take(i + 1));
        }
        if c == '<' {
            out.append("&lt;");
        } else if c == '>' {
            out.append("&gt;");
        } else if c == '&' {
            out.append("&amp;");
        } else if c == '"' {
            out.append("&quot;");
        } else if c == '\'' {
            out.append("&#39;");
        } else {
            out.push(c);
        }
        i += 1;
    }
    proof {
        assert(v@.take(v.len() as int) =~= v@);
    }
    out
}

/// A character reference read in a text: the character it stands for and the
/// number of characters it is written with.
pub ghost struct Reference {
    pub character: char,
    pub length: int,
}

/// The value of `c` as a digit, decimal or hexadecimal; -1 where it is none.
pub open spec fn digit_value(c: char, hex: bool) -> int {
    if '0' <= c <= '9' {
        c as int - '0' as int
    } else if hex && 'a' <= c <= 'f' {
        c as int - 'a' as int + 10
    } else if hex && 'A' <= c <= 'F' {
        c as int - 'A' as int + 10
    } else {
        -1
    }
}

/// Reads digits of `s` from index `i` on, starting from the value `acc`.
/// Gives the value read and the index of the first character that was not
/// read. Reading stops at a value above every character code.
pub open spec fn read_number(s: Seq<char>, i: int, hex: bool, acc: int) -> (int, int)
    decreases s.len() - i,
{
    if 0 <= i < s.len() && digit_value(s[i], hex) >= 0 && acc <= 0x10FFFF {
        read_number(s, i + 1, hex, acc * (if hex { 16int } else { 10int }) + digit_value(s[i], hex))
    } else {
        (acc, i)
    }
}

/// The numeric reference whose digits start at index `digits` of `s`, for a
/// reference that starts at index `i`: the character and the reference's length.
pub open spec fn numeric_reference(s: Seq<char>, i: int, digits: int, hex: bool) -> Option<
    Reference,
> {
    let (value, end) = read_number(s, digits, hex, 0);
    if digits < end < s.len() && s[end] == ';' && is_scalar(value) {
        Some(Reference { character: value as char, length: end + 1 - i })
    } else {
        None
    }
}

/// The character reference that starts at index `i` of `s`, if there is one:
/// the character it stands for and its length.
pub open spec fn reference_at(s: Seq<char>, i: int) -> Option<Reference> {
    if holds_at(s, i, "&lt;"@) {
        Some(Reference { character: '<', length: 4 })
    } else if holds_at(s, i, "&gt;"@) {
        Some(Reference { character: '>', length: 4 })
    } else if holds_at(s, i, "&amp;"@) {
        Some(Reference { character: '&', length: 5 })
    } else if holds_at(s, i, "&quot;"@) {
        Some(Reference { character: '"', length: 6 })
    } else if holds_at(s, i, "&apos;"@) {
        Some(Reference { character: '\'', length: 6 })
    } else if holds_at(s, i, "&#x"@) || holds_at(s, i, "&#X"@) {
        numeric_reference(s, i, i + 3, true)
    } else if holds_at(s, i, "&#"@) {
        numeric_reference(s, i, i + 2, false)
    } else {
        None
    }
}

/// The text that `s` stands for from index `i` on, each reference replaced by
/// its character. `None` where `s` holds a `<`, or a `&` that starts no
/// reference: such a text was not escaped.
pub open spec fn unescaped_from(s: Seq<char>, i: int) -> Option<Seq<char>>
    decreases s.len() - i,
{
    if i < 0 || i >= s.len() {
        Some(Seq::empty())
    } else if s[i] == '<' {
        None
    } else if s[i] == '&' {
        let r = reference_at(s, i);
        if r is Some && 0 < r.unwrap().length <= s.len() - i {
            match unescaped_from(s, i + r.unwrap().length) {
                Some(rest) => Some(seq![r.unwrap().character] + rest),
                None => None,
            }
        } else {
            None
        }
    } else {
        match unescaped_from(s, i + 1) {
            Some(rest) => Some(seq![s[i]] + rest),
            None => None,
        }
    }
}

/// The text that the escaped text `s` stands for.
pub open spec fn unescaped(s: Seq<char>) -> Option<Seq<char>> {
    unescaped_from(s, 0)
}

/// The digit that `c` is, decimal or hexadecimal.
fn digit_of(c: char, hex: bool) -> (d: Option<u32>)
    ensures
        match d {
            Some(x) => x as int == digit_value(c, hex) && x < 16,
            None => digit_value(c, hex) == -1,
        },
{
    if c >= '0' && c <= '9' {
        Some(c as u32 - '0' as u32)
    } else if hex && c >= 'a' && c <= 'f' {
        Some(c as u32 - 'a' as u32 + 10)
    } else if hex && c >= 'A' && c <= 'F' {
        Some(c as u32 - 'A' as u32 + 10)
    } else {
        None
    }
}

/// Reads the digits that start at index `start`.
fn parse_number(v: &Vec<char>, start: usize, hex: bool) -> (r: (u32, usize))
    requires
        start <= v.len(),
    ensures
        (r.0 as int, r.1 as int) == read_number(v@, start as int, hex, 0),
        start <= r.1 <= v.len(),
{
    let mut acc: u32 = 0;
    let mut i: usize = start;
    while i < v.len() && acc <= 0x10FFFF
        invariant
            start <= i <= v.len(),
            acc <= 0x10FFFF * 16 + 15,
            read_number(v@, i as int, hex, acc as int) == read_number(v@, start as int, hex, 0),
        decreases v.len() - i,
    {
        match digit_of(v[i], hex) {
            Some(d) => {
                acc = acc * (if hex { 16u32 } else { 10u32 }) + d;
                i += 1;
            },
            None => {
                return (acc, i);
            },
        }
    }
    (acc, i)
}

/// Reads the numeric reference that starts at index `i`, its digits at index
/// `digits`.
fn parse_numeric(v: &Vec<char>, i: usize, digits: usize, hex: bool) -> (r: Option<(char, usize)>)
    requires
        i < digits <= v.len(),
    ensures
        match r {
            Some((c, n)) => numeric_reference(v@, i as int, digits as int, hex) == Some(
                Reference { character: c, length: n as int },
            ) && 0 < n <= v.len() - i,
            None => numeric_reference(v@, i as int, digits as int, hex) is None,
        },
{
    let (value, end) = parse_number(v, digits, hex);
    if digits < end && end < v.len() && v[end] == ';' {
        match char::from_u32(value) {
            Some(c) => Some((c, end + 1 - i)),
            None => None,
        }
    } else {
        None
    }
}

/// Reads the character reference that starts at index `i`.
fn parse_reference(v: &Vec<char>, i: usize) -> (r: Option<(char, usize)>)
    requires
        i < v.len(),
    ensures
        match r {
            Some((c, n)) => reference_at(v@, i as int) == Some(
                Reference { character: c, length: n as int },
            ) && 0 < n <= v.len() - i,
            None => reference_at(v@, i as int) is None,
        },
{
    proof {
        reveal_strlit("&lt;");
        reveal_strlit("&gt;");
        reveal_strlit("&amp;");
        reveal_strlit("&quot;");
        reveal_strlit("&apos;");
        reveal_strlit("&#x");
        reveal_strlit("&#X");
        reveal_strlit("&#");
    }
    if starts_at(v, i, "&lt;") {
        Some(('<', 4))
    } else if starts_at(v, i, "&gt;") {
        Some(('>', 4))
    } else if starts_at(v, i, "&amp;") {
        Some(('&', 5))
    } else if starts_at(v, i, "&quot;") {
        Some(('"', 6))
    } else if starts_at(v, i, "&apos;") {
        Some(('\'', 6))
    } else if starts_at(v, i, "&#x") || starts_at(v, i, "&#X") {
        parse_numeric(v, i, i + 3, true)
    } else if starts_at(v, i, "&#") {
        parse_numeric(v, i, i + 2, false)
    } else {
        None
    }
}

/// The text `rest` with `head` before it, where there is a `rest`.
pub open spec fn prefixed(head: Seq<char>, rest: Option<Seq<char>>) -> Option<Seq<char>> {
    match rest {
        Some(r) => Some(head + r),
        None => None,
    }
}

/// Reads `raw` with each character reference replaced by the character it
/// stands for. `None` where `raw` holds a `<`, or a `&` that starts no
/// reference.
pub fn unescape_text(raw: &str) -> (out: Option<String>)
    ensures
        match out {
            Some(t) => unescaped(raw@) == Some(t@),
            None => unescaped(raw@) is None,
        },
{
    let v = chars_of(raw);
    let mut out = String::new();
    let mut i: usize = 0;
    while i < v.len()
        invariant
            i <= v.len(),
            v@ == raw@,
            unescaped_from(v@, 0) == prefixed(out@, unescaped_from(v@, i as int)),
        decreases v.len() - i,
    {
        let c = v[i];
        if c == '<' {
            return None;
        } else if c == '&' {
            match parse_reference(&v, i) {
                Some((d, n)) => {
                    out.push(d);
                    i += n;
                },
                None => {
                    return None;
                },
            }
        } else {
            out.push(c);
            i += 1;
        }
    }
    Some(out)
}

/// Inside a longer text, what was escaped is read back as it was: after any
/// `before`, the escaped `t` stands for `t`.
pub proof fn lemma_unescaped_after(before: Seq<char>, t: Seq<char>)
    ensures
        unescaped_from(before + escaped(t), before.len() as int) == Some(t),
    decreases t.len(),
{
    let s = before + escaped(t);
    let i = before.len() as int;
    if t.len() > 0 {
        let c = t[0];
        let e = escape_char(c);
        reveal_strlit("&lt;");
        reveal_strlit("&gt;");
        reveal_strlit("&amp;");
        reveal_strlit("&quot;");
        reveal_strlit("&apos;");
        reveal_strlit("&#x");
        reveal_strlit("&#X");
        reveal_strlit("&#");
        reveal_strlit("&#39;");
        assert(s =~= (before + e) + escaped(t.skip(1)));
        lemma_unescaped_after(before + e, t.skip(1));
        assert(s.subrange(i, i + e.len()) =~= e);
        if c == '>' {
            assert(s.subrange(i, i + 4)[1] == 'g');
        } else if c == '\'' {
            assert(s.subrange(i, i + 2) =~= "&#"@);
            reveal_with_fuel(read_number, 3);
        }
    }
}

/// Unescaping undoes escaping: the escaped form of any text stands for that
/// text.
pub proof fn lemma_unescape_escape(t: Seq<char>)
    ensures
        unescaped(escaped(t)) == Some(t),
{
    lemma_unescaped_after(Seq::empty(), t);
}

/// Whether `s` holds neither `<` nor `&`.
pub open spec fn markup_free(s: Seq<char>) -> bool {
    forall|k: int| 0 <= k < s.len() ==> s[k] != '<' && s[k] != '&'
}

/// A text that holds neither `<` nor `&` stands for itself.
pub proof fn lemma_unescaped_markup_free(s: Seq<char>, i: int)
    requires
        markup_free(s),
        0 <= i <= s.len(),
    ensures
        unescaped_from(s, i) == Some(s.skip(i)),
    decreases s.len() - i,
{
    if i < s.len() {
        lemma_unescaped_markup_free(s, i + 1);
    }
}

} // verus!
