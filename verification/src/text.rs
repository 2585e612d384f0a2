//! Text handling: searching, cutting and building strings.
//!
//! Strings are modelled by their characters, `Seq<char>`. The specification functions here say
//! what each cut or rendering is; the executable functions beside them compute it.
use vstd::prelude::*;
use vstd::utf8::{encode_utf8, encode_utf8_decode_utf8};

verus! {

/// `String::push` appends one character.
pub assume_specification[ String::push ](s: &mut String, c: char)
    ensures
        final(s)@ == old(s)@.push(c),
;

/// The characters of a string, one by one.
pub fn chars_of(s: &str) -> (chars: Vec<char>)
    ensures
        chars@ == s@,
{
    let mut chars: Vec<char> = Vec::new();
    for c in it: s.chars()
        invariant
            chars@ == it.seq().take(it.index() as int),
            it.seq() == s@,
    {
        chars.push(c);
    }
    chars
}

/// Whether two strings hold the same characters.
pub fn same(a: &str, b: &str) -> (r: bool)
    ensures
        r == (a@ == b@),
{
    let left: &[u8] = a.as_bytes();
    let right: &[u8] = b.as_bytes();
    proof {
        encode_utf8_decode_utf8(a@);
        encode_utf8_decode_utf8(b@);
    }
    if left.len() != right.len() {
        return false;
    }
    let mut i: usize = 0;
    while i < left.len()
        invariant
            i <= left.len(),
            left.len() == right.len(),
            left@ == encode_utf8(a@),
            right@ == encode_utf8(b@),
            forall|j: int| 0 <= j < i ==> left@[j] == right@[j],
        decreases left.len() - i,
    {
        if left[i] != right[i] {
            assert(left@[i as int] != right@[i as int]);
            return false;
        }
        i = i + 1;
    }
    assert(left@ =~= right@);
    true
}

// ------------------------------------------------------------------ searching
/// The index of the first `c` in `s`, or its length when there is none.
pub open spec fn first_index(s: Seq<char>, c: char) -> int
    decreases s.len(),
{
    if s.len() == 0 || s[0] == c {
        0
    } else {
        1 + first_index(s.drop_first(), c)
    }
}

/// The index of the last `c` in `s`, or -1 when there is none.
pub open spec fn last_index(s: Seq<char>, c: char) -> int
    decreases s.len(),
{
    if s.len() == 0 || s.last() == c {
        s.len() - 1
    } else {
        last_index(s.drop_last(), c)
    }
}

/// `first_index` is the only index that holds the character with none before it.
pub proof fn lemma_first_index(s: Seq<char>, c: char, i: int)
    requires
        0 <= i <= s.len(),
        forall|j: int| 0 <= j < i ==> s[j] != c,
        i < s.len() ==> s[i] == c,
    ensures
        first_index(s, c) == i,
        s.contains(c) <==> i < s.len(),
    decreases s.len(),
{
    if s.len() > 0 && s[0] != c {
        assert(i > 0);
        assert forall|j: int| 0 <= j < i - 1 implies s.drop_first()[j] != c by {
            assert(s.drop_first()[j] == s[j + 1]);
        }
        lemma_first_index(s.drop_first(), c, i - 1);
    }
    if i < s.len() {
        assert(s.contains(c));
    }
}

/// `last_index` is the only index that holds the character with none after it.
pub proof fn lemma_last_index(s: Seq<char>, c: char, i: int)
    requires
        -1 <= i < s.len(),
        forall|j: int| i < j < s.len() ==> s[j] != c,
        i >= 0 ==> s[i] == c,
    ensures
        last_index(s, c) == i,
        s.contains(c) <==> i >= 0,
    decreases s.len(),
{
    if s.len() > 0 && s.last() != c {
        assert(i < s.len() - 1);
        lemma_last_index(s.drop_last(), c, i);
    }
    if i >= 0 {
        assert(s.contains(c));
    }
}

/// Where the last `c` stands, and that none stands behind it.
pub proof fn lemma_last_index_bounds(s: Seq<char>, c: char)
    ensures
        -1 <= last_index(s, c) < s.len(),
        last_index(s, c) >= 0 ==> s[last_index(s, c)] == c,
        last_index(s, c) >= 0 <==> s.contains(c),
        forall|j: int| last_index(s, c) < j < s.len() ==> s[j] != c,
    decreases s.len(),
{
    if s.len() > 0 {
        if s.last() == c {
            assert(s.contains(s.last()));
        } else {
            lemma_last_index_bounds(s.drop_last(), c);
            if s.contains(c) {
                let j = choose|j: int| 0 <= j < s.len() && s[j] == c;
                assert(s.drop_last()[j] == c);
            }
            if s.drop_last().contains(c) {
                let j = choose|j: int| 0 <= j < s.drop_last().len() && s.drop_last()[j] == c;
                assert(s[j] == c);
            }
            assert forall|j: int| last_index(s, c) < j < s.len() implies s[j] != c by {
                if j < s.len() - 1 {
                    assert(s.drop_last()[j] == s[j]);
                }
            }
        }
    }
}

fn find_first(chars: &Vec<char>, c: char) -> (i: usize)
    ensures
        i == first_index(chars@, c),
        i <= chars@.len(),
        chars@.contains(c) <==> i < chars@.len(),
{
    let mut i: usize = 0;
    while i < chars.len() && chars[i] != c
        invariant
            i <= chars.len(),
            forall|j: int| 0 <= j < i ==> chars@[j] != c,
        decreases chars.len() - i,
    {
        i = i + 1;
    }
    proof {
        lemma_first_index(chars@, c, i as int);
    }
    i
}

fn find_last(chars: &Vec<char>, c: char) -> (found: Option<usize>)
    ensures
        match found {
            Some(i) => i == last_index(chars@, c) && i < chars@.len() && chars@.contains(c),
            None => last_index(chars@, c) == -1 && !chars@.contains(c),
        },
{
    let mut i: usize = chars.len();
    while i > 0 && chars[i - 1] != c
        invariant
            i <= chars.len(),
            forall|j: int| i <= j < chars.len() ==> chars@[j] != c,
        decreases i,
    {
        i = i - 1;
    }
    proof {
        lemma_last_index(chars@, c, i - 1);
    }
    if i == 0 {
        None
    } else {
        Some(i - 1)
    }
}

/// Whether `c` occurs in `s`.
pub fn has_char(s: &str, c: char) -> (r: bool)
    ensures
        r == s@.contains(c),
{
    let chars: Vec<char> = chars_of(s);
    find_first(&chars, c) < chars.len()
}

// -------------------------------------------------------------------- cutting
/// The two sides of the first `sep`.
pub open spec fn split_first(s: Seq<char>, sep: char) -> Option<(Seq<char>, Seq<char>)> {
    if s.contains(sep) {
        let i = first_index(s, sep);
        Some((s.take(i), s.skip(i + 1)))
    } else {
        None
    }
}

/// The two sides of the last `sep`.
pub open spec fn split_last(s: Seq<char>, sep: char) -> Option<(Seq<char>, Seq<char>)> {
    if s.contains(sep) {
        let i = last_index(s, sep);
        Some((s.take(i), s.skip(i + 1)))
    } else {
        None
    }
}

/// The view of an optional pair of strings.
pub open spec fn pair_view(pair: Option<(&str, &str)>) -> Option<(Seq<char>, Seq<char>)> {
    match pair {
        Some((a, b)) => Some((a@, b@)),
        None => None,
    }
}

/// Cuts `s` at the first `sep`.
pub fn split_once<'a>(s: &'a str, sep: char) -> (r: Option<(&'a str, &'a str)>)
    ensures
        pair_view(r) == split_first(s@, sep),
{
    let chars: Vec<char> = chars_of(s);
    let i: usize = find_first(&chars, sep);
    if i < chars.len() {
        let before: &'a str = s.substring_char(0, i);
        let after: &'a str = s.substring_char(i + 1, chars.len());
        assert(before@ =~= s@.take(i as int));
        assert(after@ =~= s@.skip(i + 1));
        Some((before, after))
    } else {
        None
    }
}

/// Cuts `s` at the last `sep`.
pub fn rsplit_once<'a>(s: &'a str, sep: char) -> (r: Option<(&'a str, &'a str)>)
    ensures
        pair_view(r) == split_last(s@, sep),
{
    let chars: Vec<char> = chars_of(s);
    match find_last(&chars, sep) {
        Some(i) => {
            let len: usize = chars.len();
            let before: &'a str = s.substring_char(0, i);
            let after: &'a str = s.substring_char(i + 1, len);
            assert(before@ =~= s@.take(i as int));
            assert(after@ =~= s@.skip(i + 1));
            Some((before, after))
        },
        None => None,
    }
}

/// Whether `s` opens with `prefix`.
pub fn starts_with(s: &str, prefix: &str) -> (r: bool)
    ensures
        r == prefix@.is_prefix_of(s@),
{
    let chars: Vec<char> = chars_of(s);
    let head: Vec<char> = chars_of(prefix);
    if head.len() > chars.len() {
        return false;
    }
    let mut i: usize = 0;
    while i < head.len()
        invariant
            i <= head.len() <= chars.len(),
            head@ == prefix@,
            chars@ == s@,
            forall|j: int| 0 <= j < i ==> head@[j] == chars@[j],
        decreases head.len() - i,
    {
        if head[i] != chars[i] {
            assert(s@.subrange(0, prefix@.len() as int)[i as int] != prefix@[i as int]);
            return false;
        }
        i = i + 1;
    }
    assert(prefix@ =~= s@.subrange(0, prefix@.len() as int));
    true
}

/// What follows `prefix`, when `s` opens with it.
pub open spec fn without_prefix(s: Seq<char>, prefix: Seq<char>) -> Option<Seq<char>> {
    if prefix.is_prefix_of(s) {
        Some(s.skip(prefix.len() as int))
    } else {
        None
    }
}

/// The view of an optional string.
pub open spec fn option_view(s: Option<&str>) -> Option<Seq<char>> {
    match s {
        Some(s) => Some(s@),
        None => None,
    }
}

/// Cuts `prefix` off the front of `s`.
pub fn strip_prefix<'a>(s: &'a str, prefix: &str) -> (r: Option<&'a str>)
    ensures
        option_view(r) == without_prefix(s@, prefix@),
{
    if starts_with(s, prefix) {
        let n: usize = prefix.unicode_len();
        let m: usize = s.unicode_len();
        let rest: &'a str = s.substring_char(n, m);
        assert(rest@ =~= s@.skip(prefix@.len() as int));
        Some(rest)
    } else {
        None
    }
}

/// Whether `s` closes with `suffix`.
pub fn ends_with(s: &str, suffix: &str) -> (r: bool)
    ensures
        r == suffix@.is_suffix_of(s@),
{
    let n: usize = suffix.unicode_len();
    let m: usize = s.unicode_len();
    if n > m {
        return false;
    }
    let tail: &str = s.substring_char(m - n, m);
    same(suffix, tail)
}

/// `s` without its last character, when that is `c`.
pub open spec fn without_last(s: Seq<char>, c: char) -> Option<Seq<char>> {
    if s.len() > 0 && s.last() == c {
        Some(s.drop_last())
    } else {
        None
    }
}

/// Cuts the character `c` off the end of `s`.
pub fn strip_suffix_char<'a>(s: &'a str, c: char) -> (r: Option<&'a str>)
    ensures
        option_view(r) == without_last(s@, c),
{
    let n: usize = s.unicode_len();
    if n > 0 && s.get_char(n - 1) == c {
        Some(s.substring_char(0, n - 1))
    } else {
        None
    }
}

/// `s` without the run of `c` that it ends in.
pub open spec fn without_trailing(s: Seq<char>, c: char) -> Seq<char>
    decreases s.len(),
{
    if s.len() > 0 && s.last() == c {
        without_trailing(s.drop_last(), c)
    } else {
        s
    }
}

/// Cuts every trailing `c` off `s`.
pub fn trim_end_char<'a>(s: &'a str, c: char) -> (r: &'a str)
    ensures
        r@ == without_trailing(s@, c),
{
    let chars: Vec<char> = chars_of(s);
    let mut end: usize = chars.len();
    assert(s@.take(end as int) =~= s@);
    while end > 0 && chars[end - 1] == c
        invariant
            end <= chars.len(),
            chars@ == s@,
            without_trailing(s@.take(end as int), c) == without_trailing(s@, c),
        decreases end,
    {
        assert(s@.take(end as int).drop_last() =~= s@.take(end - 1));
        end = end - 1;
    }
    let kept: &'a str = s.substring_char(0, end);
    assert(kept@ =~= s@.take(end as int));
    kept
}

/// The pieces between each `sep`, empty ones included.
pub open spec fn pieces(s: Seq<char>, sep: char) -> Seq<Seq<char>>
    decreases s.len(),
    via pieces_shrink
{
    if s.contains(sep) {
        let i = first_index(s, sep);
        seq![s.take(i)] + pieces(s.skip(i + 1), sep)
    } else {
        seq![s]
    }
}

#[via_fn]
proof fn pieces_shrink(s: Seq<char>, sep: char) {
    if s.contains(sep) {
        lemma_first_index_bounds(s, sep);
    }
}

/// `first_index` lies within the string, and holds the character when it occurs at all.
pub proof fn lemma_first_index_bounds(s: Seq<char>, c: char)
    ensures
        0 <= first_index(s, c) <= s.len(),
        s.contains(c) <==> first_index(s, c) < s.len(),
        s.contains(c) ==> s[first_index(s, c)] == c,
        forall|j: int| 0 <= j < first_index(s, c) ==> s[j] != c,
    decreases s.len(),
{
    if s.len() == 0 {
    } else if s[0] == c {
        assert(s.contains(c));
    } else {
        let rest = s.drop_first();
        lemma_first_index_bounds(rest, c);
        assert forall|j: int| 0 <= j < first_index(s, c) implies s[j] != c by {
            if j > 0 {
                assert(rest[j - 1] == s[j]);
            }
        }
        if s.contains(c) {
            let k = choose|k: int| 0 <= k < s.len() && s[k] == c;
            assert(rest[k - 1] == c);
        }
        if rest.contains(c) {
            assert(s[first_index(rest, c) + 1] == c);
        }
    }
}

/// The characters of each string in a list.
pub open spec fn views(list: Seq<String>) -> Seq<Seq<char>> {
    list.map_values(|s: String| s@)
}

/// Cuts `s` at every `sep`.
pub fn split_all(s: &str, sep: char) -> (r: Vec<String>)
    ensures
        views(r@) == pieces(s@, sep),
{
    let mut out: Vec<String> = Vec::new();
    let mut rest: &str = s;
    loop
        invariant
            views(out@) + pieces(rest@, sep) == pieces(s@, sep),
        ensures
            !rest@.contains(sep),
        decreases rest@.len(),
    {
        match split_once(rest, sep) {
            Some((before, after)) => {
                proof {
                    lemma_first_index_bounds(rest@, sep);
                }
                let ghost done = out@;
                out.push(before.to_owned());
                assert(views(out@) =~= views(done).push(before@));
                assert(views(out@) + pieces(after@, sep) =~= views(done) + pieces(rest@, sep));
                rest = after;
            },
            None => {
                break ;
            },
        }
    }
    let ghost done = out@;
    out.push(rest.to_owned());
    assert(views(out@) =~= views(done).push(rest@));
    assert(views(out@) =~= views(done) + pieces(rest@, sep));
    out
}

// ------------------------------------------------------------------ whitespace
/// The characters that Unicode gives the `White_Space` property.
pub open spec fn is_space(c: char) -> bool {
    ||| '\u{9}' <= c <= '\u{d}'
    ||| c == ' '
    ||| c == '\u{85}'
    ||| c == '\u{a0}'
    ||| c == '\u{1680}'
    ||| '\u{2000}' <= c <= '\u{200a}'
    ||| c == '\u{2028}'
    ||| c == '\u{2029}'
    ||| c == '\u{202f}'
    ||| c == '\u{205f}'
    ||| c == '\u{3000}'
}

/// Whether `c` is a whitespace character.
pub fn is_whitespace(c: char) -> (r: bool)
    ensures
        r == is_space(c),
{
    ('\u{9}' <= c && c <= '\u{d}') || c == ' ' || c == '\u{85}' || c == '\u{a0}' || c == '\u{1680}'
        || ('\u{2000}' <= c && c <= '\u{200a}') || c == '\u{2028}' || c == '\u{2029}' || c
        == '\u{202f}' || c == '\u{205f}' || c == '\u{3000}'
}

/// `s` without the whitespace it opens with.
pub open spec fn trimmed_start(s: Seq<char>) -> Seq<char>
    decreases s.len(),
{
    if s.len() > 0 && is_space(s[0]) {
        trimmed_start(s.drop_first())
    } else {
        s
    }
}

/// `s` without the whitespace it closes with.
pub open spec fn trimmed_end(s: Seq<char>) -> Seq<char>
    decreases s.len(),
{
    if s.len() > 0 && is_space(s.last()) {
        trimmed_end(s.drop_last())
    } else {
        s
    }
}

/// `s` without whitespace at either end.
pub open spec fn trimmed(s: Seq<char>) -> Seq<char> {
    trimmed_end(trimmed_start(s))
}

/// Cuts the whitespace off both ends of `s`.
pub fn trim<'a>(s: &'a str) -> (r: &'a str)
    ensures
        r@ == trimmed(s@),
{
    let chars: Vec<char> = chars_of(s);
    let mut start: usize = 0;
    assert(s@.skip(0) =~= s@);
    while start < chars.len() && is_whitespace(chars[start])
        invariant
            start <= chars.len(),
            chars@ == s@,
            trimmed_start(s@.skip(start as int)) == trimmed_start(s@),
        decreases chars.len() - start,
    {
        assert(s@.skip(start as int).drop_first() =~= s@.skip(start + 1));
        start = start + 1;
    }
    let ghost rest = s@.skip(start as int);
    assert(rest == trimmed_start(s@));
    let mut end: usize = chars.len();
    assert(s@.subrange(start as int, end as int) =~= rest);
    while end > start && is_whitespace(chars[end - 1])
        invariant
            start <= end <= chars.len(),
            chars@ == s@,
            trimmed_end(s@.subrange(start as int, end as int)) == trimmed_end(rest),
        decreases end,
    {
        assert(s@.subrange(start as int, end as int).drop_last() =~= s@.subrange(
            start as int,
            end - 1,
        ));
        end = end - 1;
    }
    s.substring_char(start, end)
}

// ------------------------------------------------------------------- building
/// The decimal digit for `d`.
pub open spec fn digit(d: int) -> char {
    (48 + d) as u8 as char
}

/// `n` in decimal.
pub open spec fn decimal(n: nat) -> Seq<char>
    decreases n,
{
    if n < 10 {
        seq![digit(n as int)]
    } else {
        decimal(n / 10).push(digit((n % 10) as int))
    }
}

/// `n` in decimal, with a leading `-` when it is negative.
pub open spec fn signed_decimal(n: int) -> Seq<char> {
    if n < 0 {
        seq!['-'] + decimal((-n) as nat)
    } else {
        decimal(n as nat)
    }
}

/// Appends `n` in decimal.
pub fn push_decimal(out: &mut String, n: u64)
    ensures
        final(out)@ == old(out)@ + decimal(n as nat),
    decreases n,
{
    if n >= 10 {
        push_decimal(out, n / 10);
    }
    let d: u8 = (n % 10) as u8;
    out.push((48 + d) as char);
    assert(out@ =~= old(out)@ + decimal(n as nat));
}

/// Appends `n` in decimal, with its sign.
pub fn push_signed(out: &mut String, n: i64)
    ensures
        final(out)@ == old(out)@ + signed_decimal(n as int),
{
    if n < 0 {
        out.push('-');
        let magnitude: u64 = if n == i64::MIN {
            0x8000_0000_0000_0000
        } else {
            (-n) as u64
        };
        push_decimal(out, magnitude);
        assert(out@ =~= old(out)@ + signed_decimal(n as int));
    } else {
        push_decimal(out, n as u64);
    }
}

/// The strings of a list with `sep` between each two.
pub open spec fn joined(list: Seq<Seq<char>>, sep: Seq<char>) -> Seq<char>
    decreases list.len(),
{
    if list.len() == 0 {
        Seq::empty()
    } else if list.len() == 1 {
        list[0]
    } else {
        joined(list.drop_last(), sep) + sep + list.last()
    }
}

/// Strings together, with `sep` between each two.
pub fn join(list: &Vec<String>, sep: &str) -> (r: String)
    ensures
        r@ == joined(views(list@), sep@),
{
    let mut out: String = String::new();
    let mut i: usize = 0;
    while i < list.len()
        invariant
            i <= list.len(),
            out@ == joined(views(list@).take(i as int), sep@),
        decreases list.len() - i,
    {
        if i > 0 {
            out.append(sep);
        }
        out.append(list[i].as_str());
        assert(views(list@).take(i + 1).drop_last() =~= views(list@).take(i as int));
        i = i + 1;
    }
    assert(views(list@).take(i as int) =~= views(list@));
    out
}

// ------------------------------------------------------------------- ordering
/// Whether `a` comes before `b` when byte strings are ordered as a dictionary orders words.
pub open spec fn bytes_before(a: Seq<u8>, b: Seq<u8>) -> bool
    decreases a.len(),
{
    if b.len() == 0 {
        false
    } else if a.len() == 0 {
        true
    } else if a[0] != b[0] {
        a[0] < b[0]
    } else {
        bytes_before(a.drop_first(), b.drop_first())
    }
}

/// Whether the string `a` comes before `b`, by their UTF-8 bytes.
pub open spec fn before(a: Seq<char>, b: Seq<char>) -> bool {
    bytes_before(encode_utf8(a), encode_utf8(b))
}

proof fn lemma_bytes_before_total(a: Seq<u8>, b: Seq<u8>)
    ensures
        bytes_before(a, b) || bytes_before(b, a) || a == b,
        !(bytes_before(a, b) && bytes_before(b, a)),
        a == b ==> !bytes_before(a, b),
    decreases a.len(),
{
    if a.len() > 0 && b.len() > 0 {
        lemma_bytes_before_total(a.drop_first(), b.drop_first());
        if a[0] == b[0] && a.drop_first() == b.drop_first() {
            assert(a =~= seq![a[0]] + a.drop_first());
            assert(b =~= seq![b[0]] + b.drop_first());
        }
    } else if a.len() == 0 && b.len() == 0 {
        assert(a =~= b);
    }
}

proof fn lemma_bytes_before_transitive(a: Seq<u8>, b: Seq<u8>, c: Seq<u8>)
    requires
        bytes_before(a, b),
        bytes_before(b, c),
    ensures
        bytes_before(a, c),
    decreases a.len(),
{
    if a.len() > 0 && a[0] == b[0] && b[0] == c[0] {
        lemma_bytes_before_transitive(a.drop_first(), b.drop_first(), c.drop_first());
    }
}

/// Any two different strings stand one before the other, and never both ways.
pub proof fn lemma_before_total(a: Seq<char>, b: Seq<char>)
    ensures
        before(a, b) || before(b, a) || a == b,
        !(before(a, b) && before(b, a)),
        a == b ==> !before(a, b),
{
    lemma_bytes_before_total(encode_utf8(a), encode_utf8(b));
    encode_utf8_decode_utf8(a);
    encode_utf8_decode_utf8(b);
}

/// The order of strings is transitive.
pub proof fn lemma_before_transitive(a: Seq<char>, b: Seq<char>, c: Seq<char>)
    requires
        before(a, b),
        before(b, c),
    ensures
        before(a, c),
{
    lemma_bytes_before_transitive(encode_utf8(a), encode_utf8(b), encode_utf8(c));
}

/// Whether `a` comes before `b`.
pub fn comes_before(a: &str, b: &str) -> (r: bool)
    ensures
        r == before(a@, b@),
{
    let left: &[u8] = a.as_bytes();
    let right: &[u8] = b.as_bytes();
    let mut i: usize = 0;
    assert(left@.skip(0) =~= left@);
    assert(right@.skip(0) =~= right@);
    while i < left.len() && i < right.len() && left[i] == right[i]
        invariant
            i <= left.len(),
            i <= right.len(),
            bytes_before(left@.skip(i as int), right@.skip(i as int)) == bytes_before(
                left@,
                right@,
            ),
        decreases left.len() - i,
    {
        assert(left@.skip(i as int).drop_first() =~= left@.skip(i + 1));
        assert(right@.skip(i as int).drop_first() =~= right@.skip(i + 1));
        i = i + 1;
    }
    if i == right.len() {
        false
    } else if i == left.len() {
        true
    } else {
        left[i] < right[i]
    }
}

// ----------------------------------------------------------------------- laws
/// A string is split into what stands before the separator and what stands after it: the first one when
/// splitting from the front, the last one when splitting from the back. Only a string without the
/// separator is not split.
pub proof fn law_the_sides_of_a_split_make_the_string(s: Seq<char>, sep: char)
    ensures
        match split_first(s, sep) {
            Some((a, b)) => s == a + seq![sep] + b && !a.contains(sep),
            None => !s.contains(sep),
        },
        match split_last(s, sep) {
            Some((a, b)) => s == a + seq![sep] + b && !b.contains(sep),
            None => !s.contains(sep),
        },
{
    lemma_first_index_bounds(s, sep);
    lemma_last_index_bounds(s, sep);
    if let Some((a, b)) = split_first(s, sep) {
        assert(s =~= a + seq![sep] + b);
    }
    if let Some((a, b)) = split_last(s, sep) {
        assert(s =~= a + seq![sep] + b);
        assert forall|j: int| 0 <= j < b.len() implies b[j] != sep by {
            assert(b[j] == s[last_index(s, sep) + 1 + j]);
        }
    }
}

/// What is left of a string without a prefix is what the prefix has to be put in front of.
pub proof fn law_a_prefix_and_the_rest_make_the_string(
    s: Seq<char>,
    prefix: Seq<char>,
    rest: Seq<char>,
)
    ensures
        without_prefix(s, prefix) == Some(rest) <==> s == prefix + rest,
{
    if prefix.is_prefix_of(s) {
        assert(s =~= prefix + s.skip(prefix.len() as int));
    }
    if s == prefix + rest {
        assert(prefix =~= s.subrange(0, prefix.len() as int));
        assert(s.skip(prefix.len() as int) =~= rest);
    }
}

/// What is left of a string without a last character is what that character has to be put behind.
pub proof fn law_a_last_character_and_the_rest_make_the_string(
    s: Seq<char>,
    c: char,
    rest: Seq<char>,
)
    ensures
        without_last(s, c) == Some(rest) <==> s == rest.push(c),
{
    if s.len() > 0 && s.last() == c {
        assert(s =~= s.drop_last().push(c));
    }
    if s == rest.push(c) {
        assert(s.drop_last() =~= rest);
    }
}

/// Cutting off the trailing ones of a character cuts off nothing else, and leaves none of them.
pub proof fn law_only_the_trailing_character_is_cut_off(s: Seq<char>, c: char)
    ensures
        ({
            let kept = without_trailing(s, c);
            &&& kept.len() <= s.len()
            &&& kept == s.take(kept.len() as int)
            &&& forall|i: int| kept.len() <= i < s.len() ==> s[i] == c
            &&& kept.len() > 0 ==> kept.last() != c
        }),
    decreases s.len(),
{
    if s.len() > 0 && s.last() == c {
        law_only_the_trailing_character_is_cut_off(s.drop_last(), c);
        let kept = without_trailing(s, c);
        assert(kept =~= s.take(kept.len() as int));
        assert forall|i: int| kept.len() <= i < s.len() implies s[i] == c by {
            if i < s.len() - 1 {
                assert(s.drop_last()[i] == s[i]);
            }
        }
    } else {
        assert(s =~= s.take(s.len() as int));
    }
}

proof fn lemma_joined_front(first: Seq<char>, rest: Seq<Seq<char>>, sep: Seq<char>)
    requires
        rest.len() > 0,
    ensures
        joined(seq![first] + rest, sep) == first + sep + joined(rest, sep),
    decreases rest.len(),
{
    let list = seq![first] + rest;
    if rest.len() == 1 {
        assert(list.drop_last() =~= seq![first]);
        assert(joined(seq![first], sep) == first);
        assert(joined(rest, sep) == rest[0]);
    } else {
        assert(list.drop_last() =~= seq![first] + rest.drop_last());
        lemma_joined_front(first, rest.drop_last(), sep);
        assert(joined(rest, sep) == joined(rest.drop_last(), sep) + sep + rest.last());
    }
    assert(list.last() == rest.last());
    assert(joined(list, sep) == joined(list.drop_last(), sep) + sep + list.last());
    assert(joined(list, sep) =~= first + sep + joined(rest, sep));
}

/// The pieces of a string, joined with the separator, make the string again, and none holds the
/// separator.
pub proof fn law_pieces_join_to_the_string(s: Seq<char>, sep: char)
    ensures
        joined(pieces(s, sep), seq![sep]) == s,
        pieces(s, sep).len() > 0,
        forall|i: int| 0 <= i < pieces(s, sep).len() ==> !(#[trigger] pieces(s, sep)[i]).contains(sep),
    decreases s.len(),
{
    if s.contains(sep) {
        lemma_first_index_bounds(s, sep);
        let i = first_index(s, sep);
        let rest = s.skip(i + 1);
        law_pieces_join_to_the_string(rest, sep);
        lemma_joined_front(s.take(i), pieces(rest, sep), seq![sep]);
        assert(s =~= s.take(i) + seq![sep] + rest);
        let list = pieces(s, sep);
        assert forall|k: int| 0 <= k < list.len() implies !(#[trigger] list[k]).contains(sep) by {
            if k > 0 {
                assert(list[k] == pieces(rest, sep)[k - 1]);
            }
        }
    }
}

/// A list of strings, none of which holds the separator, can be told from what they join to.
pub proof fn law_joined_strings_come_apart_again(list: Seq<Seq<char>>, sep: char)
    requires
        list.len() > 0,
        forall|i: int| 0 <= i < list.len() ==> !(#[trigger] list[i]).contains(sep),
    ensures
        pieces(joined(list, seq![sep]), sep) == list,
    decreases list.len(),
{
    if list.len() == 1 {
        assert(!list[0].contains(sep));
        assert(list =~= seq![list[0]]);
    } else {
        let first = list[0];
        let rest = list.skip(1);
        assert(list =~= seq![first] + rest);
        assert forall|i: int| 0 <= i < rest.len() implies !(#[trigger] rest[i]).contains(sep) by {
            assert(rest[i] == list[i + 1]);
        }
        law_joined_strings_come_apart_again(rest, sep);
        lemma_joined_front(first, rest, seq![sep]);
        let whole = joined(list, seq![sep]);
        let i = first.len() as int;
        assert(whole[i] == sep);
        assert forall|j: int| 0 <= j < i implies whole[j] != sep by {
            assert(whole[j] == first[j]);
            assert(!list[0].contains(sep));
        }
        lemma_first_index(whole, sep, i);
        assert(whole.take(i) =~= first);
        assert(whole.skip(i + 1) =~= joined(rest, seq![sep]));
    }
}

/// Whether `t` is what is left of `s` from its `a`-th character on, with nothing but whitespace around it.
pub open spec fn cut_out(s: Seq<char>, t: Seq<char>, a: int) -> bool {
    &&& 0 <= a
    &&& a + t.len() <= s.len()
    &&& t == s.subrange(a, a + t.len())
    &&& forall|j: int| 0 <= j < a || a + t.len() <= j < s.len() ==> is_space(#[trigger] s[j])
}

proof fn lemma_trimmed_start(s: Seq<char>)
    ensures
        ({
            let t = trimmed_start(s);
            &&& cut_out(s, t, s.len() - t.len())
            &&& t.len() > 0 ==> !is_space(t[0])
        }),
    decreases s.len(),
{
    let t = trimmed_start(s);
    if s.len() > 0 && is_space(s[0]) {
        lemma_trimmed_start(s.drop_first());
        assert forall|j: int| 0 <= j < s.len() - t.len() implies is_space(#[trigger] s[j]) by {
            if j > 0 {
                assert(s.drop_first()[j - 1] == s[j]);
            }
        }
    }
    assert(t =~= s.subrange(s.len() - t.len(), s.len() as int));
}

proof fn lemma_trimmed_end(s: Seq<char>)
    ensures
        cut_out(s, trimmed_end(s), 0),
        trimmed_end(s).len() > 0 ==> !is_space(trimmed_end(s).last()),
    decreases s.len(),
{
    let t = trimmed_end(s);
    if s.len() > 0 && is_space(s.last()) {
        lemma_trimmed_end(s.drop_last());
        assert forall|j: int| t.len() <= j < s.len() implies is_space(#[trigger] s[j]) by {
            if j < s.len() - 1 {
                assert(s.drop_last()[j] == s[j]);
            }
        }
    }
    assert(t =~= s.subrange(0, t.len() as int));
}

/// Trimming takes whitespace off both ends and nothing else, and leaves none there.
pub proof fn law_trimming_takes_off_whitespace_only(s: Seq<char>)
    ensures
        exists|a: int| cut_out(s, trimmed(s), a),
        trimmed(s).len() > 0 ==> !is_space(trimmed(s)[0]) && !is_space(trimmed(s).last()),
{
    let middle = trimmed_start(s);
    let a = s.len() - middle.len();
    let t = trimmed(s);
    lemma_trimmed_start(s);
    lemma_trimmed_end(middle);
    assert(t =~= s.subrange(a, a + t.len()));
    assert forall|j: int| 0 <= j < a || a + t.len() <= j < s.len() implies is_space(
        #[trigger] s[j],
    ) by {
        if j >= a {
            assert(middle[j - a] == s[j]);
        }
    }
    assert(cut_out(s, t, a));
    if t.len() > 0 {
        assert(t[0] == middle[0]);
    }
}

/// Among the ASCII characters only the tab, the line breaks and the blank are whitespace. Of the others
/// nineteen are, by their code points.
pub proof fn law_few_characters_are_whitespace(c: char)
    ensures
        ({
            let code = c as u32;
            &&& code < 0x80 ==> (is_space(c) <==> 9 <= code <= 13 || code == 32)
            &&& code >= 0x80 ==> (is_space(c) <==> code == 133 || code == 160 || code == 5760 || 8192
                <= code <= 8202 || code == 8232 || code == 8233 || code == 8239 || code == 8287 || code
                == 12288)
        }),
{
}

/// The number that decimal digits spell.
pub open spec fn spelled_number(digits: Seq<char>) -> int
    decreases digits.len(),
{
    if digits.len() == 0 {
        0
    } else {
        10 * spelled_number(digits.drop_last()) + (digits.last() as int - '0' as int)
    }
}

/// A number in decimal is spelled with digits only, without a leading zero, and spells that number.
pub proof fn law_decimals_spell_their_number(n: nat)
    ensures
        spelled_number(decimal(n)) == n,
        decimal(n).len() > 0,
        forall|i: int| 0 <= i < decimal(n).len() ==> '0' <= #[trigger] decimal(n)[i] <= '9',
        n > 0 ==> decimal(n)[0] != '0',
        n == 0 ==> decimal(n).len() == 1,
    decreases n,
{
    let s = decimal(n);
    assert(spelled_number(Seq::empty()) == 0);
    if n < 10 {
        assert(s.drop_last() =~= Seq::empty());
    } else {
        law_decimals_spell_their_number(n / 10);
        assert(s.drop_last() =~= decimal(n / 10));
    }
}

/// A negative number is spelled as its opposite behind a minus sign, another one without it.
pub proof fn law_only_negative_numbers_have_a_sign(n: int)
    ensures
        n < 0 ==> signed_decimal(n) == seq!['-'] + signed_decimal(-n),
        n >= 0 ==> signed_decimal(n)[0] != '-' && spelled_number(signed_decimal(n)) == n,
{
    if n >= 0 {
        law_decimals_spell_their_number(n as nat);
    }
}

/// Which of two strings comes first is told by the first byte in which they differ, and by the length
/// where one opens with the other.
pub proof fn law_the_first_difference_decides_the_order(a: Seq<char>, b: Seq<char>, i: int)
    requires
        0 <= i <= encode_utf8(a).len(),
        i < encode_utf8(b).len(),
        encode_utf8(a).take(i) == encode_utf8(b).take(i),
        i < encode_utf8(a).len() ==> encode_utf8(a)[i] < encode_utf8(b)[i],
    ensures
        before(a, b),
        !before(b, a),
{
    lemma_first_difference(encode_utf8(a), encode_utf8(b), i);
    lemma_before_total(a, b);
}

proof fn lemma_first_difference(a: Seq<u8>, b: Seq<u8>, i: int)
    requires
        0 <= i <= a.len(),
        i < b.len(),
        a.take(i) == b.take(i),
        i < a.len() ==> a[i] < b[i],
    ensures
        bytes_before(a, b),
    decreases i,
{
    if i > 0 {
        assert(a[0] == a.take(i)[0]);
        assert(b[0] == b.take(i)[0]);
        assert forall|j: int| 0 <= j < i - 1 implies a.drop_first()[j] == b.drop_first()[j] by {
            assert(a[j + 1] == a.take(i)[j + 1]);
            assert(b[j + 1] == b.take(i)[j + 1]);
        }
        assert(a.drop_first().take(i - 1) =~= b.drop_first().take(i - 1));
        lemma_first_difference(a.drop_first(), b.drop_first(), i - 1);
    }
}

/// Whether a text stands at a place of another.
pub open spec fn found_at(s: Seq<char>, t: Seq<char>, i: int) -> bool {
    0 <= i && i + t.len() <= s.len() && s.subrange(i, i + t.len()) == t
}

/// Whether a text stands anywhere in another.
pub open spec fn found(s: Seq<char>, t: Seq<char>) -> bool {
    exists|i: int| found_at(s, t, i)
}

/// What stands in a part of a text stands in the whole.
pub proof fn lemma_found(front: Seq<char>, s: Seq<char>, back: Seq<char>, t: Seq<char>)
    requires
        found(s, t),
    ensures
        found(front + s + back, t),
{
    let i = choose|i: int| found_at(s, t, i);
    let j = front.len() + i;
    let whole = front + s + back;
    assert(whole.subrange(j, j + t.len()) =~= s.subrange(i, i + t.len()));
    assert(found_at(whole, t, j));
}

/// A text stands in itself.
pub proof fn lemma_found_whole(s: Seq<char>)
    ensures
        found(s, s),
{
    assert(s.subrange(0, s.len() as int) =~= s);
    assert(found_at(s, s, 0));
}

} // verus!
