//! Text as sequences of characters: the few string operations that the rest of
//! the crate is written with, each stated over `Seq<char>`.

use vstd::prelude::*;
use vstd::utf8::*;

verus! {

/// `String::push` appends one character.
pub assume_specification[ String::push ](s: &mut String, c: char)
    ensures
        final(s)@ == old(s)@.push(c),
;

/// The text of each string of a list.
pub open spec fn texts(list: Seq<String>) -> Seq<Seq<char>> {
    Seq::new(list.len(), |i: int| list[i]@)
}

/// The text of a string that may be missing.
pub open spec fn opt_text(s: Option<String>) -> Option<Seq<char>> {
    match s {
        Some(s) => Some(s@),
        None => None,
    }
}

/// The characters of a string.
pub fn chars_of(s: &str) -> (v: Vec<char>)
    ensures
        v@ == s@,
{
    let mut v: Vec<char> = Vec::new();
    for c in it: s.chars()
        invariant
            v@ == it.seq().take(it.index() as int),
            it.seq() == s@,
    {
        v.push(c);
    }
    v
}

/// The string with the characters from `from` up to `to`.
pub fn substring(v: &[char], from: usize, to: usize) -> (s: String)
    requires
        from <= to <= v@.len(),
    ensures
        s@ == v@.subrange(from as int, to as int),
{
    let mut s = String::new();
    for i in from..to
        invariant
            from <= to <= v@.len(),
            s@ == v@.subrange(from as int, i as int),
    {
        s.push(v[i]);
        assert(v@.subrange(from as int, i as int).push(v@[i as int]) =~= v@.subrange(
            from as int,
            i + 1,
        ));
    }
    s
}

/// Equal bytes come from equal text.
proof fn lemma_same_bytes(a: Seq<char>, b: Seq<char>)
    requires
        encode_utf8(a) == encode_utf8(b),
    ensures
        a == b,
{
    encode_utf8_decode_utf8(a);
    encode_utf8_decode_utf8(b);
}

/// Whether two strings hold the same text.
pub fn same(a: &str, b: &str) -> (r: bool)
    ensures
        r == (a@ == b@),
{
    let x = a.as_bytes();
    let y = b.as_bytes();
    if x.len() != y.len() {
        return false;
    }
    for i in 0..x.len()
        invariant
            x@ == encode_utf8(a@),
            y@ == encode_utf8(b@),
            x@.len() == y@.len(),
            forall|j: int| 0 <= j < i ==> x@[j] == y@[j],
    {
        if x[i] != y[i] {
            return false;
        }
    }
    proof {
        assert(x@ =~= y@);
        lemma_same_bytes(a@, b@);
    }
    true
}

// ---------------------------------------------------------------------------
// Bytes
// ---------------------------------------------------------------------------

/// How many bytes UTF-8 spends on one character.
pub open spec fn char_bytes(c: char) -> nat {
    if c as u32 <= 0x7f {
        1
    } else if c as u32 <= 0x7ff {
        2
    } else if c as u32 <= 0xffff {
        3
    } else {
        4
    }
}

/// How many bytes UTF-8 spends on a text.
pub open spec fn byte_len(s: Seq<char>) -> nat
    decreases s.len(),
{
    if s.len() == 0 {
        0
    } else {
        char_bytes(s[0]) + byte_len(s.drop_first())
    }
}

/// `byte_len` is the length of the UTF-8 encoding.
pub proof fn lemma_encoded_len(s: Seq<char>)
    ensures
        encode_utf8(s).len() == byte_len(s),
    decreases s.len(),
{
    if s.len() > 0 {
        lemma_encoded_len(s.drop_first());
        char_is_scalar(s[0]);
        char_u32_cast(s[0], s[0] as u32);
    }
}

/// The bytes of two texts add up.
pub proof fn lemma_byte_len_add(a: Seq<char>, b: Seq<char>)
    ensures
        byte_len(a + b) == byte_len(a) + byte_len(b),
    decreases a.len(),
{
    if a.len() == 0 {
        assert(a + b =~= b);
    } else {
        lemma_byte_len_add(a.drop_first(), b);
        assert((a + b).drop_first() =~= a.drop_first() + b);
    }
}

/// One more character adds its bytes.
pub proof fn lemma_byte_len_push(s: Seq<char>, c: char)
    ensures
        byte_len(s.push(c)) == byte_len(s) + char_bytes(c),
{
    lemma_byte_len_add(s, seq![c]);
    assert(s.push(c) =~= s + seq![c]);
    reveal_with_fuel(byte_len, 2);
}

/// The length of a string in bytes.
pub fn bytes_in(s: &str) -> (n: usize)
    ensures
        n == byte_len(s@),
{
    proof {
        lemma_encoded_len(s@);
    }
    s.as_bytes().len()
}

/// How many bytes one character takes.
pub fn bytes_in_char(c: char) -> (n: usize)
    ensures
        n == char_bytes(c),
{
    let code: u32 = c as u32;
    if code <= 0x7f {
        1
    } else if code <= 0x7ff {
        2
    } else if code <= 0xffff {
        3
    } else {
        4
    }
}

// ---------------------------------------------------------------------------
// White space
// ---------------------------------------------------------------------------

/// The characters with the Unicode property White_Space.
pub open spec fn is_white(c: char) -> bool {
    let code = c as u32;
    ||| 0x09 <= code <= 0x0d
    ||| code == 0x20
    ||| code == 0x85
    ||| code == 0xa0
    ||| code == 0x1680
    ||| 0x2000 <= code <= 0x200a
    ||| code == 0x2028
    ||| code == 0x2029
    ||| code == 0x202f
    ||| code == 0x205f
    ||| code == 0x3000
}

/// A text without the white space at its start.
pub open spec fn trim_start(s: Seq<char>) -> Seq<char>
    decreases s.len(),
{
    if s.len() > 0 && is_white(s[0]) {
        trim_start(s.drop_first())
    } else {
        s
    }
}

/// A text without the white space at its end.
pub open spec fn trim_end(s: Seq<char>) -> Seq<char>
    decreases s.len(),
{
    if s.len() > 0 && is_white(s.last()) {
        trim_end(s.drop_last())
    } else {
        s
    }
}

/// A text without the white space at its ends.
pub open spec fn trim(s: Seq<char>) -> Seq<char> {
    trim_end(trim_start(s))
}

/// Nothing but white space.
pub open spec fn blank(s: Seq<char>) -> bool {
    trim(s).len() == 0
}

/// Whether a character is white space.
pub fn white(c: char) -> (r: bool)
    ensures
        r == is_white(c),
{
    let code: u32 = c as u32;
    (0x09 <= code && code <= 0x0d) || code == 0x20 || code == 0x85 || code == 0xa0 || code == 0x1680
        || (0x2000 <= code && code <= 0x200a) || code == 0x2028 || code == 0x2029 || code == 0x202f
        || code == 0x205f || code == 0x3000
}

/// Where a text begins once its leading white space is skipped.
fn white_prefix(v: &[char]) -> (n: usize)
    ensures
        n <= v@.len(),
        v@.skip(n as int) == trim_start(v@),
{
    let mut n: usize = 0;
    assert(v@.skip(0) =~= v@);
    while n < v.len() && white(v[n])
        invariant
            n <= v@.len(),
            trim_start(v@.skip(n as int)) == trim_start(v@),
        decreases v@.len() - n,
    {
        assert(v@.skip(n as int).drop_first() =~= v@.skip(n + 1));
        n = n + 1;
    }
    n
}

/// Where the text from `from` on ends once its trailing white space is dropped.
fn white_suffix(v: &[char], from: usize) -> (n: usize)
    requires
        from <= v@.len(),
    ensures
        from <= n <= v@.len(),
        v@.subrange(from as int, n as int) == trim_end(v@.skip(from as int)),
{
    let mut n: usize = v.len();
    assert(v@.subrange(from as int, n as int) =~= v@.skip(from as int));
    while n > from && white(v[n - 1])
        invariant
            from <= n <= v@.len(),
            trim_end(v@.subrange(from as int, n as int)) == trim_end(v@.skip(from as int)),
        decreases n,
    {
        assert(v@.subrange(from as int, n as int).drop_last() =~= v@.subrange(from as int, n - 1));
        n = n - 1;
    }
    n
}

/// The text without the white space at its ends.
pub fn trimmed(s: &str) -> (r: String)
    ensures
        r@ == trim(s@),
{
    let v = chars_of(s);
    let from = white_prefix(&v);
    let to = white_suffix(&v, from);
    substring(&v, from, to)
}

/// The text without the white space at its start.
pub fn trimmed_start(s: &str) -> (r: String)
    ensures
        r@ == trim_start(s@),
{
    let v = chars_of(s);
    let from = white_prefix(&v);
    assert(v@.subrange(from as int, v@.len() as int) =~= v@.skip(from as int));
    substring(&v, from, v.len())
}

/// The text without the white space at its end.
pub fn trimmed_end(s: &str) -> (r: String)
    ensures
        r@ == trim_end(s@),
{
    let v = chars_of(s);
    let to = white_suffix(&v, 0);
    assert(v@.skip(0) =~= v@);
    substring(&v, 0, to)
}

/// Whether a string holds nothing but white space.
pub fn is_blank(s: &str) -> (r: bool)
    ensures
        r == blank(s@),
{
    let t = trimmed(s);
    t.as_str().is_empty()
}

// ---------------------------------------------------------------------------
// Finding and splitting
// ---------------------------------------------------------------------------

/// Where a character first occurs, or the length of the text.
pub open spec fn find(s: Seq<char>, c: char) -> nat
    decreases s.len(),
{
    if s.len() == 0 || s[0] == c {
        0
    } else {
        1 + find(s.drop_first(), c)
    }
}

/// What `find` finds: nothing before it is the character, and it is.
pub proof fn lemma_find(s: Seq<char>, c: char)
    ensures
        find(s, c) <= s.len(),
        forall|i: int| 0 <= i < find(s, c) ==> s[i] != c,
        find(s, c) < s.len() ==> s[find(s, c) as int] == c,
    decreases s.len(),
{
    if s.len() > 0 && s[0] != c {
        let rest = s.drop_first();
        lemma_find(rest, c);
        assert forall|i: int| 0 <= i < find(s, c) implies s[i] != c by {
            if i > 0 {
                assert(rest[i - 1] == s[i]);
            }
        }
    }
}

/// `find` is the only place with that property.
pub proof fn lemma_find_at(s: Seq<char>, c: char, n: int)
    requires
        0 <= n <= s.len(),
        forall|i: int| 0 <= i < n ==> s[i] != c,
        n < s.len() ==> s[n] == c,
    ensures
        find(s, c) == n,
{
    lemma_find(s, c);
    let m = find(s, c) as int;
    if m < n {
        assert(s[m] != c);
    } else if n < m {
        assert(s[n] != c);
    }
}

/// Where a character first occurs at or after `from`, or the length.
fn find_from(v: &[char], from: usize, c: char) -> (n: usize)
    requires
        from <= v@.len(),
    ensures
        from <= n <= v@.len(),
        n == from + find(v@.skip(from as int), c),
{
    let mut n: usize = from;
    while n < v.len() && v[n] != c
        invariant
            from <= n <= v@.len(),
            forall|i: int| from <= i < n ==> v@[i] != c,
        decreases v@.len() - n,
    {
        n = n + 1;
    }
    proof {
        let t = v@.skip(from as int);
        assert forall|i: int| 0 <= i < n - from implies t[i] != c by {
            assert(t[i] == v@[from + i]);
        }
        lemma_find_at(t, c, n - from);
    }
    n
}

/// A line without the carriage return that belongs to its line ending.
pub open spec fn strip_cr(s: Seq<char>) -> Seq<char> {
    if s.len() > 0 && s.last() == '\r' {
        s.drop_last()
    } else {
        s
    }
}

/// The lines of a text. A line ends with a line feed, which may follow a
/// carriage return; the last one may end with the text instead.
pub open spec fn lines(s: Seq<char>) -> Seq<Seq<char>>
    decreases s.len(),
{
    if s.len() == 0 {
        Seq::empty()
    } else {
        let n = find(s, '\n');
        if n >= s.len() {
            seq![s]
        } else {
            seq![strip_cr(s.take(n as int))] + lines(s.skip(n as int + 1))
        }
    }
}

/// The lines of a string.
pub fn lines_of(s: &str) -> (r: Vec<String>)
    ensures
        texts(r@) == lines(s@),
{
    let v = chars_of(s);
    let mut out: Vec<String> = Vec::new();
    let mut at: usize = 0;
    assert(v@.skip(0) =~= v@);
    assert(texts(out@) =~= Seq::empty());
    assert(texts(out@) + lines(v@.skip(0)) =~= lines(v@));
    while at < v.len()
        invariant
            at <= v@.len(),
            texts(out@) + lines(v@.skip(at as int)) == lines(v@),
        decreases v@.len() - at,
    {
        let ghost rest = v@.skip(at as int);
        let ghost before = texts(out@);
        let end = find_from(&v, at, '\n');
        if end >= v.len() {
            let last = substring(&v, at, v.len());
            assert(last@ =~= rest);
            out.push(last);
            at = v.len();
            assert(texts(out@) =~= before.push(rest));
            assert(v@.skip(at as int) =~= Seq::empty());
            assert(texts(out@) + lines(v@.skip(at as int)) =~= before + lines(rest));
        } else {
            let to = if end > at && v[end - 1] == '\r' {
                end - 1
            } else {
                end
            };
            let line = substring(&v, at, to);
            assert(rest.take(end - at) =~= v@.subrange(at as int, end as int));
            assert(line@ =~= strip_cr(rest.take(end - at)));
            out.push(line);
            assert(rest.skip(end - at + 1) =~= v@.skip(end + 1));
            at = end + 1;
            assert(texts(out@) =~= before.push(line@));
            assert(texts(out@) + lines(v@.skip(at as int)) =~= before + lines(rest));
        }
    }
    assert(v@.skip(at as int) =~= Seq::empty());
    assert(texts(out@) + lines(v@.skip(at as int)) =~= texts(out@));
    out
}

/// The parts of a text that end with a line feed, and what is left after them.
pub open spec fn line_parts(s: Seq<char>) -> Seq<Seq<char>>
    decreases s.len(),
{
    if s.len() == 0 {
        Seq::empty()
    } else {
        let n = find(s, '\n');
        if n + 1 < s.len() {
            seq![s.take(n as int + 1)] + line_parts(s.skip(n as int + 1))
        } else {
            seq![s]
        }
    }
}

/// The parts of a string that end with a line feed, and what is left after them.
pub fn line_parts_of(s: &str) -> (r: Vec<String>)
    ensures
        texts(r@) == line_parts(s@),
{
    let v = chars_of(s);
    let total = v.len();
    let mut out: Vec<String> = Vec::new();
    let mut at: usize = 0;
    assert(v@.skip(0) =~= v@);
    assert(texts(out@) + line_parts(v@) =~= line_parts(v@));
    while at < total
        invariant
            v@ == s@,
            at <= total == v@.len(),
            texts(out@) + line_parts(v@.skip(at as int)) == line_parts(s@),
        decreases total - at,
    {
        let ghost rest = v@.skip(at as int);
        let ghost before = texts(out@);
        let n = find_from(&v, at, '\n');
        let to = if n < total {
            n + 1
        } else {
            n
        };
        let part = substring(&v, at, to);
        let ghost shown = part@;
        let ghost old_out = out@;
        proof {
            lemma_find(rest, '\n');
        }
        out.push(part);
        assert(texts(out@) =~= before.push(shown));
        if to < total {
            assert(shown =~= rest.take(to - at));
            assert(rest.skip(to - at) =~= v@.skip(to as int));
            assert(line_parts(rest) =~= seq![shown] + line_parts(v@.skip(to as int)));
            assert(texts(out@) + line_parts(v@.skip(to as int)) =~= before + line_parts(rest));
        } else {
            assert(shown =~= rest);
            assert(line_parts(rest) =~= seq![shown]);
            assert(v@.skip(to as int) =~= Seq::empty());
            assert(texts(out@) + line_parts(v@.skip(to as int)) =~= before + line_parts(rest));
        }
        at = to;
    }
    assert(v@.skip(at as int) =~= Seq::empty());
    assert(texts(out@) + line_parts(v@.skip(at as int)) =~= texts(out@));
    out
}

/// The pieces of a text between the occurrences of a character. There is
/// always at least one.
pub open spec fn split(s: Seq<char>, c: char) -> Seq<Seq<char>>
    decreases s.len(),
{
    let n = find(s, c);
    if n >= s.len() {
        seq![s]
    } else {
        seq![s.take(n as int)] + split(s.skip(n as int + 1), c)
    }
}

/// The pieces of a string between the occurrences of a character.
pub fn split_on(s: &str, c: char) -> (r: Vec<String>)
    ensures
        texts(r@) == split(s@, c),
        r@.len() >= 1,
{
    let v = chars_of(s);
    let mut out: Vec<String> = Vec::new();
    let mut at: usize = 0;
    assert(v@.skip(0) =~= v@);
    assert(texts(out@) + split(v@.skip(0), c) =~= split(v@, c));
    loop
        invariant
            at <= v@.len(),
            v@ == s@,
            texts(out@) + split(v@.skip(at as int), c) == split(v@, c),
        decreases v@.len() - at,
    {
        let ghost rest = v@.skip(at as int);
        let ghost before = texts(out@);
        let end = find_from(&v, at, c);
        let piece = substring(&v, at, end);
        out.push(piece);
        assert(texts(out@) =~= before.push(piece@));
        if end >= v.len() {
            assert(piece@ =~= rest);
            assert(texts(out@) =~= before + split(rest, c));
            return out;
        }
        assert(piece@ =~= rest.take(end - at));
        assert(rest.skip(end - at + 1) =~= v@.skip(end + 1));
        at = end + 1;
        assert(texts(out@) + split(v@.skip(at as int), c) =~= before + split(rest, c));
    }
}

/// Whether a text begins with another.
pub open spec fn starts_with(s: Seq<char>, pattern: Seq<char>) -> bool {
    s.len() >= pattern.len() && s.take(pattern.len() as int) == pattern
}

/// Where another text first occurs.
pub open spec fn find_text(s: Seq<char>, pattern: Seq<char>) -> Option<nat>
    decreases s.len(),
{
    if starts_with(s, pattern) {
        Some(0)
    } else if s.len() == 0 {
        None
    } else {
        match find_text(s.drop_first(), pattern) {
            Some(n) => Some(n + 1),
            None => None,
        }
    }
}

/// The text before and after the first occurrence of another.
pub open spec fn split_once(s: Seq<char>, pattern: Seq<char>) -> Option<(Seq<char>, Seq<char>)> {
    match find_text(s, pattern) {
        Some(n) => Some((s.take(n as int), s.skip(n as int + pattern.len()))),
        None => None,
    }
}

/// Whether `pattern` stands at `at`.
fn occurs_at(v: &[char], at: usize, pattern: &[char]) -> (r: bool)
    requires
        at <= v@.len(),
    ensures
        r == starts_with(v@.skip(at as int), pattern@),
{
    let total = v.len();
    if total - at < pattern.len() {
        return false;
    }
    let ghost rest = v@.skip(at as int);
    for i in 0..pattern.len()
        invariant
            at + pattern@.len() <= v@.len(),
            total == v@.len(),
            rest == v@.skip(at as int),
            forall|j: int| 0 <= j < i ==> v@[at + j] == pattern@[j],
    {
        if v[at + i] != pattern[i] {
            assert(rest.take(pattern@.len() as int)[i as int] != pattern@[i as int]);
            return false;
        }
    }
    assert(rest.take(pattern@.len() as int) =~= pattern@);
    true
}

/// Where `pattern` first occurs at or after `from`.
fn find_text_from(v: &[char], from: usize, pattern: &[char]) -> (r: Option<usize>)
    requires
        from <= v@.len(),
    ensures
        match r {
            Some(n) => from <= n && n + pattern@.len() <= v@.len() && find_text(
                v@.skip(from as int),
                pattern@,
            ) == Some((n - from) as nat),
            None => find_text(v@.skip(from as int), pattern@) is None,
        },
{
    let mut at: usize = from;
    let ghost whole = find_text(v@.skip(from as int), pattern@);
    loop
        invariant
            from <= at <= v@.len(),
            whole == find_text(v@.skip(from as int), pattern@),
            match find_text(v@.skip(at as int), pattern@) {
                Some(n) => whole == Some((at - from + n) as nat),
                None => whole is None,
            },
        decreases v@.len() - at,
    {
        if occurs_at(v, at, pattern) {
            return Some(at);
        }
        if at >= v.len() {
            return None;
        }
        assert(v@.skip(at as int).drop_first() =~= v@.skip(at + 1));
        at = at + 1;
    }
}

/// The text before and after the first occurrence of `pattern`.
pub fn split_at_first(s: &str, pattern: &str) -> (r: Option<(String, String)>)
    ensures
        match r {
            Some(parts) => split_once(s@, pattern@) == Some((parts.0@, parts.1@)),
            None => split_once(s@, pattern@) is None,
        },
{
    let v = chars_of(s);
    let p = chars_of(pattern);
    assert(v@.skip(0) =~= v@);
    match find_text_from(&v, 0, &p) {
        Some(n) => {
            let total = v.len();
            let before = substring(&v, 0, n);
            let after = substring(&v, n + p.len(), total);
            assert(before@ =~= s@.take(n as int));
            assert(after@ =~= s@.skip(n + pattern@.len()));
            Some((before, after))
        },
        None => None,
    }
}

/// Whether a string begins with `pattern`.
pub fn begins_with(s: &str, pattern: &str) -> (r: bool)
    ensures
        r == starts_with(s@, pattern@),
{
    let v = chars_of(s);
    let p = chars_of(pattern);
    assert(v@.skip(0) =~= v@);
    occurs_at(&v, 0, &p)
}

/// The text after `pattern`, where the string begins with it.
pub fn after_prefix(s: &str, pattern: &str) -> (r: Option<String>)
    ensures
        match r {
            Some(rest) => starts_with(s@, pattern@) && rest@ == s@.skip(pattern@.len() as int),
            None => !starts_with(s@, pattern@),
        },
{
    let v = chars_of(s);
    let p = chars_of(pattern);
    assert(v@.skip(0) =~= v@);
    if occurs_at(&v, 0, &p) {
        let rest = substring(&v, p.len(), v.len());
        assert(rest@ =~= s@.skip(pattern@.len() as int));
        Some(rest)
    } else {
        None
    }
}

/// Where another text last occurs, at or before a place.
pub open spec fn last_at(s: Seq<char>, pattern: Seq<char>, at: int) -> Option<nat>
    decreases at + 1,
{
    if at < 0 {
        None
    } else if starts_with(s.skip(at), pattern) {
        Some(at as nat)
    } else {
        last_at(s, pattern, at - 1)
    }
}

/// What stands after the last occurrence of another text, or the whole text
/// where that does not occur.
pub open spec fn after_last(s: Seq<char>, pattern: Seq<char>) -> Seq<char> {
    match last_at(s, pattern, s.len() as int) {
        Some(n) => s.skip(n as int + pattern.len()),
        None => s,
    }
}

/// What stands after the last occurrence of `pattern`, or the whole string
/// where that does not occur.
pub fn part_after_last(s: &str, pattern: &str) -> (r: String)
    ensures
        r@ == after_last(s@, pattern@),
{
    let v = chars_of(s);
    let p = chars_of(pattern);
    let total = v.len();
    let mut at: usize = total;
    loop
        invariant
            v@ == s@,
            p@ == pattern@,
            at <= total == v@.len(),
            last_at(s@, pattern@, total as int) == last_at(s@, pattern@, at as int),
        decreases at,
    {
        if occurs_at(&v, at, &p) {
            let rest = substring(&v, at + p.len(), total);
            assert(rest@ =~= s@.skip(at + pattern@.len()));
            return rest;
        }
        if at == 0 {
            assert(last_at(s@, pattern@, -1) is None);
            return s.to_owned();
        }
        at = at - 1;
    }
}

/// How many characters the first `bytes` bytes of a text hold, where a character
/// ends there.
pub open spec fn chars_in_bytes(s: Seq<char>, bytes: nat) -> Option<nat>
    decreases s.len(),
{
    if bytes == 0 {
        Some(0)
    } else if s.len() == 0 || char_bytes(s[0]) > bytes {
        None
    } else {
        match chars_in_bytes(s.drop_first(), (bytes - char_bytes(s[0])) as nat) {
            Some(n) => Some(n + 1),
            None => None,
        }
    }
}

/// The text before and after a byte, where a character ends there.
pub open spec fn split_bytes(s: Seq<char>, bytes: nat) -> Option<(Seq<char>, Seq<char>)> {
    match chars_in_bytes(s, bytes) {
        Some(n) => Some((s.take(n as int), s.skip(n as int))),
        None => None,
    }
}

/// The text before and after a byte, where a character ends there.
pub fn split_at_byte(s: &str, bytes: usize) -> (r: Option<(String, String)>)
    ensures
        match r {
            Some(parts) => split_bytes(s@, bytes as nat) == Some((parts.0@, parts.1@)),
            None => split_bytes(s@, bytes as nat) is None,
        },
{
    let v = chars_of(s);
    let total = v.len();
    let mut at: usize = 0;
    let mut left: usize = bytes;
    assert(v@.skip(0) =~= v@);
    let ghost whole = chars_in_bytes(v@, bytes as nat);
    loop
        invariant
            v@ == s@,
            at <= total == v@.len(),
            whole == chars_in_bytes(v@, bytes as nat),
            match chars_in_bytes(v@.skip(at as int), left as nat) {
                Some(n) => whole == Some((at + n) as nat),
                None => whole is None,
            },
        decreases total - at,
    {
        if left == 0 {
            let before = substring(&v, 0, at);
            let after = substring(&v, at, total);
            assert(before@ =~= s@.take(at as int));
            assert(after@ =~= s@.skip(at as int));
            return Some((before, after));
        }
        if at >= total {
            return None;
        }
        let width = bytes_in_char(v[at]);
        if width > left {
            return None;
        }
        assert(v@.skip(at as int).drop_first() =~= v@.skip(at + 1));
        left = left - width;
        at = at + 1;
    }
}

/// Whether one text stands somewhere in another.
pub open spec fn has_part(s: Seq<char>, part: Seq<char>) -> bool {
    exists|at: int| 0 <= at <= s.len() && starts_with(#[trigger] s.skip(at), part)
}

/// What stands in a text stands in one that goes on after it.
pub proof fn lemma_part_of_more(s: Seq<char>, part: Seq<char>, more: Seq<char>)
    requires
        has_part(s, part),
    ensures
        has_part(s + more, part),
{
    let at = choose|at: int| 0 <= at <= s.len() && starts_with(#[trigger] s.skip(at), part);
    assert((s + more).skip(at).take(part.len() as int) =~= s.skip(at).take(part.len() as int));
}

/// What stands between two texts stands in the whole.
pub proof fn lemma_part_between(before: Seq<char>, part: Seq<char>, after: Seq<char>)
    ensures
        has_part(before + part + after, part),
{
    lemma_part_at_end(before, part);
    lemma_part_of_more(before + part, part, after);
}

/// What stands in a text stands in one that goes on before and after it.
pub proof fn lemma_part_within(before: Seq<char>, s: Seq<char>, part: Seq<char>, after: Seq<char>)
    requires
        has_part(s, part),
    ensures
        has_part(before + s + after, part),
{
    let at = choose|at: int| 0 <= at <= s.len() && starts_with(#[trigger] s.skip(at), part);
    let whole = before + s + after;
    assert(whole.skip(before.len() + at).take(part.len() as int) =~= s.skip(at).take(
        part.len() as int,
    ));
}

/// Whether a text ends with another.
pub open spec fn has_end(s: Seq<char>, end: Seq<char>) -> bool {
    end.len() <= s.len() && s.skip(s.len() - end.len()) == end
}

/// Every text of a list stands in what the list joins to.
pub proof fn lemma_join_holds(parts: Seq<Seq<char>>, separator: Seq<char>, i: int)
    requires
        0 <= i < parts.len(),
    ensures
        has_part(join(parts, separator), parts[i]),
    decreases parts.len(),
{
    if parts.len() == 1 {
        lemma_part_at_end(Seq::empty(), parts[0]);
        assert(Seq::<char>::empty() + parts[0] =~= parts[0]);
    } else if i == parts.len() - 1 {
        lemma_part_at_end(join(parts.drop_last(), separator) + separator, parts[i]);
    } else {
        lemma_join_holds(parts.drop_last(), separator, i);
        lemma_part_of_more(join(parts.drop_last(), separator), parts[i], separator);
        lemma_part_of_more(
            join(parts.drop_last(), separator) + separator,
            parts[i],
            parts.last(),
        );
    }
}

/// Texts one after the other.
pub open spec fn concat(parts: Seq<Seq<char>>) -> Seq<char>
    decreases parts.len(),
{
    if parts.len() == 0 {
        Seq::empty()
    } else {
        concat(parts.drop_last()) + parts.last()
    }
}

/// What a text ends with stands in it.
pub proof fn lemma_part_at_end(s: Seq<char>, part: Seq<char>)
    ensures
        has_part(s + part, part),
{
    assert((s + part).skip(s.len() as int).take(part.len() as int) =~= part);
}

/// What trimming leaves begins and ends with something other than white space.
pub proof fn lemma_trim_ends(s: Seq<char>)
    ensures
        trim(s).len() > 0 ==> !is_white(trim(s)[0]) && !is_white(trim(s).last()),
{
    lemma_trim_start_len(s);
    lemma_trim_end_ends(trim_start(s));
}

proof fn lemma_trim_end_ends(s: Seq<char>)
    ensures
        trim_end(s).len() <= s.len(),
        trim_end(s) == s.take(trim_end(s).len() as int),
        trim_end(s).len() > 0 ==> !is_white(trim_end(s).last()),
    decreases s.len(),
{
    if s.len() > 0 && is_white(s.last()) {
        lemma_trim_end_ends(s.drop_last());
        let n = trim_end(s).len() as int;
        assert(s.drop_last().take(n) =~= s.take(n));
    } else {
        assert(s.take(s.len() as int) =~= s);
    }
}

/// A text that begins and ends with something other than white space stays as it
/// is.
pub proof fn lemma_trim_fixed(s: Seq<char>)
    requires
        s.len() > 0 ==> !is_white(s[0]) && !is_white(s.last()),
    ensures
        trim(s) == s,
{
}

/// Where another text stands, and stands nowhere before, it is found.
pub proof fn lemma_find_text_at(s: Seq<char>, pattern: Seq<char>, n: int)
    requires
        0 <= n <= s.len(),
        starts_with(s.skip(n), pattern),
        forall|m: int| 0 <= m < n ==> !starts_with(#[trigger] s.skip(m), pattern),
    ensures
        find_text(s, pattern) == Some(n as nat),
    decreases s.len(),
{
    assert(s.skip(0) =~= s);
    if n > 0 {
        let rest = s.drop_first();
        assert(!starts_with(s.skip(0), pattern));
        assert forall|m: int| 0 <= m < n - 1 implies !starts_with(#[trigger] rest.skip(m), pattern) by {
            assert(rest.skip(m) =~= s.skip(m + 1));
        }
        assert(rest.skip(n - 1) =~= s.skip(n));
        lemma_find_text_at(rest, pattern, n - 1);
    }
}

/// What is found lies within the text.
pub proof fn lemma_find_text_bound(s: Seq<char>, pattern: Seq<char>)
    ensures
        find_text(s, pattern) matches Some(n) ==> n + pattern.len() <= s.len(),
    decreases s.len(),
{
    if !starts_with(s, pattern) && s.len() > 0 {
        lemma_find_text_bound(s.drop_first(), pattern);
    }
}

/// Another text is found exactly where it stands.
pub proof fn lemma_find_text(s: Seq<char>, pattern: Seq<char>)
    ensures
        find_text(s, pattern) is None ==> forall|m: int|
            0 <= m <= s.len() ==> !starts_with(#[trigger] s.skip(m), pattern),
        find_text(s, pattern) is None <== forall|m: int|
            0 <= m <= s.len() ==> !starts_with(#[trigger] s.skip(m), pattern),
    decreases s.len(),
{
    assert(s.skip(0) =~= s);
    if !starts_with(s, pattern) && s.len() > 0 {
        let rest = s.drop_first();
        lemma_find_text(rest, pattern);
        if find_text(s, pattern) is None {
            assert forall|m: int| 0 <= m <= s.len() implies !starts_with(
                #[trigger] s.skip(m),
                pattern,
            ) by {
                if m > 0 {
                    assert(rest.skip(m - 1) =~= s.skip(m));
                }
            }
        }
        if forall|m: int| 0 <= m <= s.len() ==> !starts_with(#[trigger] s.skip(m), pattern) {
            assert forall|m: int| 0 <= m <= rest.len() implies !starts_with(
                #[trigger] rest.skip(m),
                pattern,
            ) by {
                assert(rest.skip(m) =~= s.skip(m + 1));
            }
        }
    } else if starts_with(s, pattern) {
        assert(starts_with(s.skip(0), pattern));
    }
}

// ---------------------------------------------------------------------------
// Words
// ---------------------------------------------------------------------------

/// How many characters stand before the first white space.
pub open spec fn word_len(s: Seq<char>) -> nat
    decreases s.len(),
{
    if s.len() == 0 || is_white(s[0]) {
        0
    } else {
        1 + word_len(s.drop_first())
    }
}

pub proof fn lemma_trim_start_len(s: Seq<char>)
    ensures
        trim_start(s).len() <= s.len(),
        trim_start(s).len() > 0 ==> !is_white(trim_start(s)[0]),
    decreases s.len(),
{
    if s.len() > 0 && is_white(s[0]) {
        lemma_trim_start_len(s.drop_first());
    }
}

pub proof fn lemma_word_len(s: Seq<char>)
    ensures
        word_len(s) <= s.len(),
        forall|i: int| 0 <= i < word_len(s) ==> !is_white(s[i]),
        word_len(s) < s.len() ==> is_white(s[word_len(s) as int]),
    decreases s.len(),
{
    if s.len() > 0 && !is_white(s[0]) {
        let rest = s.drop_first();
        lemma_word_len(rest);
        assert forall|i: int| 0 <= i < word_len(s) implies !is_white(s[i]) by {
            if i > 0 {
                assert(rest[i - 1] == s[i]);
            }
        }
    }
}

/// The words of a text: its runs of characters that are not white space.
pub open spec fn words(s: Seq<char>) -> Seq<Seq<char>>
    decreases s.len(),
{
    let t = trim_start(s);
    if t.len() == 0 {
        Seq::empty()
    } else {
        proof {
            lemma_trim_start_len(s);
            lemma_word_len(t);
        }
        seq![t.take(word_len(t) as int)] + words(t.skip(word_len(t) as int))
    }
}

/// No word is empty, and none holds white space.
pub proof fn lemma_words(s: Seq<char>)
    ensures
        forall|i: int| 0 <= i < words(s).len() ==> #[trigger] words(s)[i].len() > 0,
        forall|i: int, j: int|
            0 <= i < words(s).len() && 0 <= j < words(s)[i].len() ==> !is_white(
                #[trigger] words(s)[i][j],
            ),
    decreases s.len(),
{
    let t = trim_start(s);
    if t.len() > 0 {
        lemma_trim_start_len(s);
        lemma_word_len(t);
        let n = word_len(t) as int;
        let rest = t.skip(n);
        lemma_words(rest);
        assert forall|i: int| 0 <= i < words(s).len() implies #[trigger] words(s)[i].len() > 0 by {
            if i > 0 {
                assert(words(s)[i] == words(rest)[i - 1]);
            }
        }
        assert forall|i: int, j: int|
            0 <= i < words(s).len() && 0 <= j < words(s)[i].len() implies !is_white(
            #[trigger] words(s)[i][j],
        ) by {
            if i > 0 {
                assert(words(s)[i] == words(rest)[i - 1]);
                assert(!is_white(words(rest)[i - 1][j]));
            }
        }
    }
}

/// The words of a string.
pub fn words_of(s: &str) -> (r: Vec<String>)
    ensures
        texts(r@) == words(s@),
{
    let v = chars_of(s);
    let mut out: Vec<String> = Vec::new();
    let mut at: usize = 0;
    assert(v@.skip(0) =~= v@);
    assert(texts(out@) + words(v@.skip(0)) =~= words(v@));
    loop
        invariant
            at <= v@.len(),
            v@ == s@,
            texts(out@) + words(v@.skip(at as int)) == words(v@),
        decreases v@.len() - at,
    {
        let ghost rest = v@.skip(at as int);
        let ghost before = texts(out@);
        let mut from: usize = at;
        while from < v.len() && white(v[from])
            invariant
                at <= from <= v@.len(),
                rest == v@.skip(at as int),
                trim_start(v@.skip(from as int)) == trim_start(rest),
            decreases v@.len() - from,
        {
            assert(v@.skip(from as int).drop_first() =~= v@.skip(from + 1));
            from = from + 1;
        }
        let ghost t = v@.skip(from as int);
        assert(t == trim_start(rest));
        if from >= v.len() {
            assert(texts(out@) + words(rest) =~= texts(out@));
            return out;
        }
        let mut to: usize = from;
        while to < v.len() && !white(v[to])
            invariant
                from <= to <= v@.len(),
                t == v@.skip(from as int),
                word_len(t) == to - from + word_len(v@.skip(to as int)),
            decreases v@.len() - to,
        {
            assert(v@.skip(to as int).drop_first() =~= v@.skip(to + 1));
            to = to + 1;
        }
        let word = substring(&v, from, to);
        assert(word_len(t) == to - from);
        assert(word@ =~= t.take(word_len(t) as int));
        out.push(word);
        assert(texts(out@) =~= before.push(word@));
        assert(t.skip(word_len(t) as int) =~= v@.skip(to as int));
        proof {
            lemma_trim_start_len(rest);
        }
        at = to;
        assert(texts(out@) + words(v@.skip(at as int)) =~= before + words(rest));
    }
}

// ---------------------------------------------------------------------------
// Joining, padding and numbers
// ---------------------------------------------------------------------------

/// Texts put together with a separator between them.
pub open spec fn join(parts: Seq<Seq<char>>, separator: Seq<char>) -> Seq<char>
    decreases parts.len(),
{
    if parts.len() == 0 {
        Seq::empty()
    } else if parts.len() == 1 {
        parts[0]
    } else {
        join(parts.drop_last(), separator) + separator + parts.last()
    }
}

/// What a list that begins with a text joins to.
pub proof fn lemma_join_front(first: Seq<char>, rest: Seq<Seq<char>>, separator: Seq<char>)
    ensures
        rest.len() == 0 ==> join(seq![first] + rest, separator) == first,
        rest.len() > 0 ==> join(seq![first] + rest, separator) == first + separator + join(
            rest,
            separator,
        ),
    decreases rest.len(),
{
    let all = seq![first] + rest;
    if rest.len() > 0 {
        lemma_join_front(first, rest.drop_last(), separator);
        assert(all.drop_last() =~= seq![first] + rest.drop_last());
        if rest.len() > 1 {
            assert(first + separator + (join(rest.drop_last(), separator) + separator + rest.last())
                =~= (first + separator + join(rest.drop_last(), separator)) + separator
                + rest.last());
        }
    }
}

/// Strings put together with a separator between them.
pub fn joined(parts: &[String], separator: &str) -> (r: String)
    ensures
        r@ == join(texts(parts@), separator@),
{
    let mut out = String::new();
    for i in 0..parts.len()
        invariant
            out@ == join(texts(parts@).take(i as int), separator@),
    {
        let ghost upto = texts(parts@).take(i + 1);
        assert(upto.drop_last() =~= texts(parts@).take(i as int));
        if i > 0 {
            out.append(separator);
        }
        out.append(parts[i].as_str());
        assert(out@ =~= join(upto, separator@));
    }
    assert(texts(parts@).take(parts@.len() as int) =~= texts(parts@));
    out
}

/// One character over and over.
pub open spec fn repeat(c: char, count: nat) -> Seq<char> {
    Seq::new(count, |i: int| c)
}

/// Appends one character `count` times.
pub fn push_repeated(out: &mut String, c: char, count: usize)
    ensures
        final(out)@ == old(out)@ + repeat(c, count as nat),
{
    let ghost before = out@;
    assert(before =~= before + repeat(c, 0));
    for i in 0..count
        invariant
            out@ == before + repeat(c, i as nat),
    {
        out.push(c);
        assert(out@ =~= before + repeat(c, (i + 1) as nat));
    }
}

/// How many spaces fill a text up to a width.
pub open spec fn fill(s: Seq<char>, width: nat) -> nat {
    if s.len() < width {
        (width - s.len()) as nat
    } else {
        0
    }
}

/// A text with spaces after it, up to a width in characters.
pub open spec fn pad_end(s: Seq<char>, width: nat) -> Seq<char> {
    s + repeat(' ', fill(s, width))
}

/// A text with spaces before it, up to a width in characters.
pub open spec fn pad_start(s: Seq<char>, width: nat) -> Seq<char> {
    repeat(' ', fill(s, width)) + s
}

/// How many characters a string holds.
pub fn char_count(s: &str) -> (n: usize)
    ensures
        n == s@.len(),
{
    s.unicode_len()
}

/// The string with spaces after it.
pub fn padded_end(s: &str, width: usize) -> (r: String)
    ensures
        r@ == pad_end(s@, width as nat),
{
    let mut out = s.to_owned();
    let n = char_count(s);
    push_repeated(&mut out, ' ', width.saturating_sub(n));
    out
}

/// The string with spaces before it.
pub fn padded_start(s: &str, width: usize) -> (r: String)
    ensures
        r@ == pad_start(s@, width as nat),
{
    let mut out = String::new();
    let n = char_count(s);
    push_repeated(&mut out, ' ', width.saturating_sub(n));
    out.append(s);
    assert(out@ =~= pad_start(s@, width as nat));
    out
}

/// What is left of a number, which is never less than nothing.
pub open spec fn less(a: nat, b: nat) -> nat {
    if a < b {
        0
    } else {
        (a - b) as nat
    }
}

/// What is left of a number, which is never less than nothing.
pub fn saturating_less(a: usize, b: usize) -> (r: usize)
    ensures
        r == less(a as nat, b as nat),
{
    if a < b {
        0
    } else {
        a - b
    }
}

/// The decimal digit of a number below ten.
pub open spec fn digit(d: nat) -> char {
    (48 + d) as char
}

/// A number in decimal.
pub open spec fn decimal(n: nat) -> Seq<char>
    decreases n,
{
    if n < 10 {
        seq![digit(n)]
    } else {
        decimal(n / 10).push(digit(n % 10))
    }
}

/// A number in decimal.
pub fn number(n: u128) -> (r: String)
    ensures
        r@ == decimal(n as nat),
    decreases n,
{
    if n < 10 {
        let mut out = String::new();
        let d: u8 = 48 + n as u8;
        out.push(d as char);
        assert(out@ =~= decimal(n as nat));
        out
    } else {
        let mut out = number(n / 10);
        let d: u8 = 48 + (n % 10) as u8;
        out.push(d as char);
        out
    }
}

/// Whether a character is a decimal digit.
pub open spec fn is_digit(c: char) -> bool {
    48 <= c as u32 <= 57
}

/// Decimal digits and nothing else.
pub open spec fn all_digits(s: Seq<char>) -> bool {
    forall|i: int| 0 <= i < s.len() ==> is_digit(#[trigger] s[i])
}

/// The number that decimal digits write.
pub open spec fn digits_value(s: Seq<char>) -> nat
    decreases s.len(),
{
    if s.len() == 0 {
        0
    } else {
        10 * digits_value(s.drop_last()) + (s.last() as u32 - 48) as nat
    }
}

/// The number written by at least one digit, where it is at most `max`.
pub open spec fn parse_digits(s: Seq<char>, max: nat) -> Option<nat> {
    if s.len() > 0 && all_digits(s) && digits_value(s) <= max {
        Some(digits_value(s))
    } else {
        None
    }
}

/// Longer digits write a number that is no smaller.
proof fn lemma_digits_value_grows(s: Seq<char>, n: int)
    requires
        0 <= n <= s.len(),
    ensures
        digits_value(s.take(n)) <= digits_value(s),
    decreases s.len() - n,
{
    if n < s.len() {
        lemma_digits_value_grows(s, n + 1);
        assert(s.take(n + 1).drop_last() =~= s.take(n));
    } else {
        assert(s.take(n) =~= s);
    }
}

/// Reads the digits from `from` on.
fn read_digits(v: &[char], from: usize, max: u64) -> (r: Option<u64>)
    requires
        from <= v@.len(),
    ensures
        match r {
            Some(n) => parse_digits(v@.skip(from as int), max as nat) == Some(n as nat),
            None => parse_digits(v@.skip(from as int), max as nat) is None,
        },
{
    let ghost s = v@.skip(from as int);
    if from >= v.len() {
        return None;
    }
    let mut value: u64 = 0;
    for i in from..v.len()
        invariant
            from <= v@.len(),
            s == v@.skip(from as int),
            all_digits(s.take(i - from)),
            value == digits_value(s.take(i - from)),
            value <= max,
    {
        let c = v[i];
        let code: u32 = c as u32;
        assert(s[i - from] == c);
        if code < 48 || code > 57 {
            assert(!is_digit(s[i - from]));
            return None;
        }
        let next: u128 = value as u128 * 10 + (code - 48) as u128;
        let ghost longer = s.take(i + 1 - from);
        assert(longer.drop_last() =~= s.take(i - from));
        assert(next == digits_value(longer));
        if next > max as u128 {
            proof {
                lemma_digits_value_grows(s, i + 1 - from);
            }
            return None;
        }
        value = next as u64;
        assert forall|j: int| 0 <= j < longer.len() implies is_digit(#[trigger] longer[j]) by {
            if j < i - from {
                assert(longer[j] == s.take(i - from)[j]);
            }
        }
    }
    assert(s.take(v@.len() - from) =~= s);
    Some(value)
}

/// The number that a text writes: digits, with or without a plus sign.
pub open spec fn parse_unsigned(s: Seq<char>, max: nat) -> Option<nat> {
    if s.len() > 0 && s[0] == '+' {
        parse_digits(s.skip(1), max)
    } else {
        parse_digits(s, max)
    }
}

/// The integer that a text writes: digits, with or without a sign.
pub open spec fn parse_signed(s: Seq<char>) -> Option<int> {
    if s.len() > 0 && s[0] == '-' {
        match parse_digits(s.skip(1), 0x8000_0000_0000_0000) {
            Some(n) => Some(-(n as int)),
            None => None,
        }
    } else {
        match parse_unsigned(s, 0x7fff_ffff_ffff_ffff) {
            Some(n) => Some(n as int),
            None => None,
        }
    }
}

/// Reads an unsigned number.
pub fn read_u64(s: &str) -> (r: Option<u64>)
    ensures
        match r {
            Some(n) => parse_unsigned(s@, u64::MAX as nat) == Some(n as nat),
            None => parse_unsigned(s@, u64::MAX as nat) is None,
        },
{
    let v = chars_of(s);
    assert(v@.skip(0) =~= v@);
    if v.len() > 0 && v[0] == '+' {
        read_digits(&v, 1, u64::MAX)
    } else {
        read_digits(&v, 0, u64::MAX)
    }
}

/// Reads a signed number.
pub fn read_i64(s: &str) -> (r: Option<i64>)
    ensures
        match r {
            Some(n) => parse_signed(s@) == Some(n as int),
            None => parse_signed(s@) is None,
        },
{
    let v = chars_of(s);
    assert(v@.skip(0) =~= v@);
    if v.len() > 0 && v[0] == '-' {
        match read_digits(&v, 1, 0x8000_0000_0000_0000) {
            Some(n) => {
                let wide: i128 = -(n as i128);
                Some(wide as i64)
            },
            None => None,
        }
    } else {
        let from: usize = if v.len() > 0 && v[0] == '+' {
            1
        } else {
            0
        };
        match read_digits(&v, from, 0x7fff_ffff_ffff_ffff) {
            Some(n) => Some(n as i64),
            None => None,
        }
    }
}

/// What a number is written with reads back as that number.
pub proof fn lemma_decimal_reads_back(n: nat)
    ensures
        decimal(n).len() > 0,
        all_digits(decimal(n)),
        digits_value(decimal(n)) == n,
    decreases n,
{
    let s = decimal(n);
    if n < 10 {
        assert(s.drop_last() =~= Seq::empty());
        assert(digits_value(s.drop_last()) == 0);
    } else {
        lemma_decimal_reads_back(n / 10);
        assert(s.drop_last() =~= decimal(n / 10));
        assert forall|i: int| 0 <= i < s.len() implies is_digit(#[trigger] s[i]) by {
            if i < s.len() - 1 {
                assert(is_digit(decimal(n / 10)[i]));
            }
        }
    }
}

/// No line holds a line feed.
pub proof fn lemma_lines_hold_no_line_feed(s: Seq<char>)
    ensures
        forall|i: int| 0 <= i < lines(s).len() ==> !(#[trigger] lines(s)[i]).contains('\n'),
    decreases s.len(),
{
    if s.len() > 0 {
        lemma_find(s, '\n');
        let n = find(s, '\n') as int;
        if n < s.len() {
            let rest = s.skip(n + 1);
            lemma_lines_hold_no_line_feed(rest);
            assert forall|i: int| 0 <= i < lines(s).len() implies !(#[trigger] lines(s)[i]).contains(
                '\n',
            ) by {
                if i > 0 {
                    assert(lines(s)[i] == lines(rest)[i - 1]);
                } else if lines(s)[0].contains('\n') {
                    let j = choose|j: int| 0 <= j < lines(s)[0].len() && lines(s)[0][j] == '\n';
                    assert(s[j] == '\n');
                }
            }
        }
    }
}

/// Lines that are put together come apart again, where each says something, none
/// holds a line feed, and none ends like a line ending does.
pub proof fn lemma_joined_lines(list: Seq<Seq<char>>)
    requires
        forall|i: int| 0 <= i < list.len() ==> (#[trigger] list[i]).len() > 0,
        forall|i: int| 0 <= i < list.len() ==> !(#[trigger] list[i]).contains('\n'),
        forall|i: int| 0 <= i < list.len() ==> (#[trigger] list[i]).last() != '\r',
    ensures
        lines(join(list, "\n"@)) == list,
    decreases list.len(),
{
    reveal_strlit("\n");
    if list.len() == 0 {
        assert(lines(join(list, "\n"@)) =~= list);
    } else {
        let first = list[0];
        let rest = list.drop_first();
        assert(list =~= seq![first] + rest);
        lemma_join_front(first, rest, "\n"@);
        assert forall|i: int| 0 <= i < first.len() implies first[i] != '\n' by {
            if first[i] == '\n' {
                assert(first.contains('\n'));
            }
        }
        if rest.len() == 0 {
            lemma_find_at(first, '\n', first.len() as int);
            assert(lines(first) =~= seq![first]);
        } else {
            assert forall|i: int| 0 <= i < rest.len() implies (#[trigger] rest[i]).len() > 0
                && !rest[i].contains('\n') && rest[i].last() != '\r' by {
                assert(rest[i] == list[i + 1]);
            }
            lemma_joined_lines(rest);
            let whole = first + "\n"@ + join(rest, "\n"@);
            let n = first.len() as int;
            lemma_find_at(whole, '\n', n);
            assert(whole.take(n) =~= first);
            assert(whole.skip(n + 1) =~= join(rest, "\n"@));
            assert(lines(whole) =~= seq![first] + rest);
        }
    }
}

// ---------------------------------------------------------------------------
// Order
// ---------------------------------------------------------------------------

/// The order of texts: by their first difference, a prefix first.
pub open spec fn text_lt(a: Seq<char>, b: Seq<char>) -> bool
    decreases a.len(),
{
    if b.len() == 0 {
        false
    } else if a.len() == 0 {
        true
    } else if a[0] == b[0] {
        text_lt(a.drop_first(), b.drop_first())
    } else {
        a[0] < b[0]
    }
}

/// No text comes before itself.
pub proof fn lemma_text_lt_irreflexive(a: Seq<char>)
    ensures
        !text_lt(a, a),
    decreases a.len(),
{
    if a.len() > 0 {
        lemma_text_lt_irreflexive(a.drop_first());
    }
}

/// The order is transitive.
pub proof fn lemma_text_lt_transitive(a: Seq<char>, b: Seq<char>, c: Seq<char>)
    requires
        text_lt(a, b),
        text_lt(b, c),
    ensures
        text_lt(a, c),
    decreases a.len(),
{
    if a.len() > 0 && b.len() > 0 && c.len() > 0 && a[0] == b[0] && b[0] == c[0] {
        lemma_text_lt_transitive(a.drop_first(), b.drop_first(), c.drop_first());
    }
}

/// Of two different texts one comes first.
pub proof fn lemma_text_lt_total(a: Seq<char>, b: Seq<char>)
    ensures
        text_lt(a, b) || text_lt(b, a) || a == b,
    decreases a.len(),
{
    if a.len() > 0 && b.len() > 0 {
        if a[0] == b[0] {
            lemma_text_lt_total(a.drop_first(), b.drop_first());
            if a.drop_first() == b.drop_first() {
                assert(a =~= seq![a[0]] + a.drop_first());
                assert(b =~= seq![b[0]] + b.drop_first());
            }
        }
    } else if a.len() == 0 && b.len() == 0 {
        assert(a =~= b);
    }
}

/// Whether a string comes before another.
pub fn comes_before(a: &str, b: &str) -> (r: bool)
    ensures
        r == text_lt(a@, b@),
{
    let x = chars_of(a);
    let y = chars_of(b);
    let mut i: usize = 0;
    assert(x@.skip(0) =~= x@);
    assert(y@.skip(0) =~= y@);
    while i < x.len() && i < y.len()
        invariant
            i <= x@.len(),
            i <= y@.len(),
            text_lt(x@.skip(i as int), y@.skip(i as int)) == text_lt(a@, b@),
        decreases x@.len() - i,
    {
        let c: char = x[i];
        let d: char = y[i];
        assert(x@.skip(i as int)[0] == x@[i as int]);
        assert(y@.skip(i as int)[0] == y@[i as int]);
        if c != d {
            return c < d;
        }
        assert(x@.skip(i as int).drop_first() =~= x@.skip(i + 1));
        assert(y@.skip(i as int).drop_first() =~= y@.skip(i + 1));
        i = i + 1;
    }
    i < y.len()
}

// ---------------------------------------------------------------------------
// Laws
// ---------------------------------------------------------------------------

/// Of the characters of ASCII, the space and the controls from the tab to the carriage
/// return are white space, and no other.
pub proof fn law_white_space_of_ascii(c: char)
    requires
        (c as u32) < 128,
    ensures
        is_white(c) <==> c == ' ' || c == '\t' || c == '\n' || c == '\r' || c as u32 == 11 || c
            as u32 == 12,
{
}

/// Whether nothing but white space stands in a text.
pub open spec fn all_white(s: Seq<char>) -> bool {
    forall|i: int| 0 <= i < s.len() ==> is_white(#[trigger] s[i])
}

proof fn lemma_trim_start_drops(s: Seq<char>)
    ensures
        trim_start(s).len() <= s.len(),
        trim_start(s) == s.skip(s.len() - trim_start(s).len()),
        all_white(s.take(s.len() - trim_start(s).len())),
    decreases s.len(),
{
    if s.len() > 0 && is_white(s[0]) {
        let rest = s.drop_first();
        lemma_trim_start_drops(rest);
        let n = s.len() - trim_start(s).len();
        assert(rest.skip(n - 1) =~= s.skip(n));
        assert forall|i: int| 0 <= i < s.take(n).len() implies is_white(#[trigger] s.take(n)[i]) by {
            if i > 0 {
                assert(rest.take(n - 1)[i - 1] == s[i]);
            }
        }
    } else {
        assert(s.skip(0) =~= s);
    }
}

proof fn lemma_trim_end_drops(s: Seq<char>)
    ensures
        trim_end(s).len() <= s.len(),
        trim_end(s) == s.take(trim_end(s).len() as int),
        all_white(s.skip(trim_end(s).len() as int)),
    decreases s.len(),
{
    if s.len() > 0 && is_white(s.last()) {
        let rest = s.drop_last();
        lemma_trim_end_drops(rest);
        let n = trim_end(s).len() as int;
        assert(rest.take(n) =~= s.take(n));
        assert forall|i: int| 0 <= i < s.skip(n).len() implies is_white(#[trigger] s.skip(n)[i]) by {
            if i < rest.len() - n {
                assert(rest.skip(n)[i] == s[n + i]);
            }
        }
    } else {
        assert(s.take(s.len() as int) =~= s);
    }
}

/// Trimming takes white space off the ends of a text, all of it and nothing else: what
/// is left stands in the text, white space stands before and after it, and none stands
/// at its ends. So a text is blank exactly where it holds nothing but white space.
pub proof fn law_trim_takes_white_space_off_the_ends(s: Seq<char>) -> (n: int)
    ensures
        0 <= n,
        n + trim(s).len() <= s.len(),
        trim(s) == s.subrange(n, n + trim(s).len()),
        all_white(s.take(n)),
        all_white(s.skip(n + trim(s).len())),
        trim(s).len() > 0 ==> !is_white(trim(s)[0]) && !is_white(trim(s).last()),
        blank(s) <==> all_white(s),
        trim_start(s) == s.skip(s.len() - trim_start(s).len()),
        all_white(s.take(s.len() - trim_start(s).len())),
        trim_start(s).len() > 0 ==> !is_white(trim_start(s)[0]),
        trim_end(s) == s.take(trim_end(s).len() as int),
        all_white(s.skip(trim_end(s).len() as int)),
        trim_end(s).len() > 0 ==> !is_white(trim_end(s).last()),
{
    lemma_trim_start_drops(s);
    lemma_trim_start_len(s);
    lemma_trim_end_drops(s);
    lemma_trim_end_ends(s);
    let t = trim_start(s);
    lemma_trim_end_drops(t);
    lemma_trim_ends(s);
    let n = s.len() - t.len();
    let m = trim(s).len() as int;
    assert(t.take(m) =~= s.subrange(n, n + m));
    assert(t.skip(m) =~= s.skip(n + m));
    if blank(s) {
        assert forall|i: int| 0 <= i < s.len() implies is_white(#[trigger] s[i]) by {
            if i < n {
                assert(s.take(n)[i] == s[i]);
            } else {
                assert(s.skip(n + m)[i - n] == s[i]);
            }
        }
    }
    if all_white(s) && m > 0 {
        assert(trim(s)[0] == s[n]);
    }
    n
}

/// A text is read line by line. A line ends with a line feed, or with a carriage return
/// and a line feed, which are no part of it; the last may end with the text.
pub proof fn law_lines_are_read_one_by_one(line: Seq<char>, rest: Seq<char>)
    requires
        !line.contains('\n'),
    ensures
        lines(Seq::<char>::empty()).len() == 0,
        line.len() > 0 ==> lines(line) == seq![line],
        !(line.len() > 0 && line.last() == '\r') ==> lines(line.push('\n') + rest) == seq![line]
            + lines(rest),
        lines(line.push('\r').push('\n') + rest) == seq![line] + lines(rest),
{
    assert forall|i: int| 0 <= i < line.len() implies line[i] != '\n' by {
        if line[i] == '\n' {
            assert(line.contains('\n'));
        }
    }
    lemma_find_at(line, '\n', line.len() as int);
    let a = line.push('\n') + rest;
    lemma_find_at(a, '\n', line.len() as int);
    assert(a.take(line.len() as int) =~= line);
    assert(a.skip(line.len() as int + 1) =~= rest);
    let b = line.push('\r').push('\n') + rest;
    lemma_find_at(b, '\n', line.len() as int + 1);
    assert(b.take(line.len() as int + 1) =~= line.push('\r'));
    assert(line.push('\r').drop_last() =~= line);
    assert(b.skip(line.len() as int + 2) =~= rest);
}

/// The parts of a text between a character are told one by one.
pub proof fn law_splits_are_told_one_by_one(part: Seq<char>, c: char, rest: Seq<char>)
    requires
        !part.contains(c),
    ensures
        split(part, c) == seq![part],
        split(part.push(c) + rest, c) == seq![part] + split(rest, c),
{
    assert forall|i: int| 0 <= i < part.len() implies part[i] != c by {
        if part[i] == c {
            assert(part.contains(c));
        }
    }
    lemma_find_at(part, c, part.len() as int);
    let a = part.push(c) + rest;
    lemma_find_at(a, c, part.len() as int);
    assert(a.take(part.len() as int) =~= part);
    assert(a.skip(part.len() as int + 1) =~= rest);
}

/// A text is split at the first place where another stands, and stays whole only where
/// it stands nowhere.
pub proof fn law_split_is_at_the_first(s: Seq<char>, pattern: Seq<char>)
    ensures
        split_once(s, pattern) is Some <==> has_part(s, pattern),
        split_once(s, pattern) matches Some((before, after)) ==> s == before + pattern + after
            && forall|m: int|
            0 <= m < before.len() ==> !starts_with(#[trigger] s.skip(m), pattern),
{
    lemma_find_text(s, pattern);
    lemma_find_text_bound(s, pattern);
    lemma_found_first(s, pattern);
    if let Some(n) = find_text(s, pattern) {
        let n = n as int;
        let k = pattern.len() as int;
        assert(s.skip(n).take(k) == pattern);
        assert forall|i: int| 0 <= i < k implies #[trigger] pattern[i] == s[n + i] by {
            assert(s.skip(n).take(k)[i] == s[n + i]);
        }
        assert(s =~= s.take(n) + pattern + s.skip(n + k));
    }
}

proof fn lemma_found_first(s: Seq<char>, pattern: Seq<char>)
    ensures
        find_text(s, pattern) matches Some(n) ==> n <= s.len() && starts_with(
            s.skip(n as int),
            pattern,
        ) && forall|m: int| 0 <= m < n ==> !starts_with(#[trigger] s.skip(m), pattern),
    decreases s.len(),
{
    assert(s.skip(0) =~= s);
    if !starts_with(s, pattern) && s.len() > 0 {
        let rest = s.drop_first();
        lemma_found_first(rest, pattern);
        if let Some(n) = find_text(s, pattern) {
            assert(rest.skip(n - 1) =~= s.skip(n as int));
            assert forall|m: int| 0 <= m < n implies !starts_with(#[trigger] s.skip(m), pattern) by {
                if m > 0 {
                    assert(rest.skip(m - 1) =~= s.skip(m));
                }
            }
        }
    }
}

/// Joining puts the separator between the texts, and nowhere else.
pub proof fn law_joins_are_put_together(
    a: Seq<Seq<char>>,
    b: Seq<Seq<char>>,
    one: Seq<char>,
    separator: Seq<char>,
)
    ensures
        join(Seq::empty(), separator) == Seq::<char>::empty(),
        join(seq![one], separator) == one,
        a.len() > 0 && b.len() > 0 ==> join(a + b, separator) == join(a, separator) + separator
            + join(b, separator),
    decreases b.len(),
{
    if a.len() > 0 && b.len() > 0 {
        assert((a + b).drop_last() =~= a + b.drop_last());
        if b.len() == 1 {
            assert(a + b.drop_last() =~= a);
        } else {
            law_joins_are_put_together(a, b.drop_last(), one, separator);
            assert(join(a + b, separator) =~= join(a, separator) + separator + join(
                b,
                separator,
            ));
        }
    }
}

/// A number that is written reads back, with and without a sign, if it is in range; and
/// what holds anything but digits behind its sign is no number.
pub proof fn law_numbers_read_back(n: nat, s: Seq<char>, max: nat)
    ensures
        n <= max ==> parse_unsigned(decimal(n), max) == Some(n),
        n > max ==> parse_unsigned(decimal(n), max) is None,
        n <= max ==> parse_unsigned(seq!['+'] + decimal(n), max) == Some(n),
        n <= 0x7fff_ffff_ffff_ffff ==> parse_signed(decimal(n)) == Some(n as int),
        n > 0x7fff_ffff_ffff_ffff ==> parse_signed(decimal(n)) is None,
        n <= 0x8000_0000_0000_0000 ==> parse_signed(seq!['-'] + decimal(n)) == Some(-(n as int)),
        n > 0x8000_0000_0000_0000 ==> parse_signed(seq!['-'] + decimal(n)) is None,
        s.len() == 0 ==> parse_unsigned(s, max) is None && parse_signed(s) is None,
        (exists|i: int| 1 <= i < s.len() && !is_digit(#[trigger] s[i])) ==> parse_unsigned(s, max)
            is None && parse_signed(s) is None,
        parse_unsigned(s, max) matches Some(v) ==> v <= max,
{
    lemma_decimal_reads_back(n);
    let d = decimal(n);
    assert(is_digit(d[0]));
    assert((seq!['+'] + d).skip(1) =~= d);
    assert((seq!['-'] + d).skip(1) =~= d);
    if exists|i: int| 1 <= i < s.len() && !is_digit(#[trigger] s[i]) {
        let i = choose|i: int| 1 <= i < s.len() && !is_digit(#[trigger] s[i]);
        assert(s.skip(1)[i - 1] == s[i]);
    }
}

/// Padding adds spaces on one side, as many as are missing.
pub proof fn law_padding_fills_up(s: Seq<char>, width: nat)
    ensures
        pad_end(s, width).len() == if s.len() < width {
            width
        } else {
            s.len()
        },
        pad_end(s, width).take(s.len() as int) == s,
        forall|i: int| s.len() <= i < pad_end(s, width).len() ==> #[trigger] pad_end(s, width)[i] == ' ',
        pad_start(s, width).len() == if s.len() < width {
            width
        } else {
            s.len()
        },
        pad_start(s, width).skip(pad_start(s, width).len() - s.len()) == s,
        forall|i: int|
            0 <= i < pad_start(s, width).len() - s.len() ==> #[trigger] pad_start(s, width)[i] == ' ',
{
    assert(pad_end(s, width).take(s.len() as int) =~= s);
    assert(pad_start(s, width).skip(pad_start(s, width).len() - s.len()) =~= s);
}

/// The order of texts is that of their first difference, and a beginning comes before
/// what goes on after it.
pub proof fn law_texts_are_ordered_by_their_first_difference(
    same: Seq<char>,
    c: char,
    d: char,
    a: Seq<char>,
    b: Seq<char>,
)
    ensures
        text_lt(same, same.push(c) + a),
        !text_lt(same.push(c) + a, same),
        c < d ==> text_lt(same.push(c) + a, same.push(d) + b),
    decreases same.len(),
{
    let x = same.push(c) + a;
    let y = same.push(d) + b;
    if same.len() > 0 {
        let rest = same.drop_first();
        law_texts_are_ordered_by_their_first_difference(rest, c, d, a, b);
        assert(x.drop_first() =~= rest.push(c) + a);
        assert(y.drop_first() =~= rest.push(d) + b);
    }
}

/// The words of a text are told one by one: white space stands between them and is no
/// part of any.
pub proof fn law_words_are_told_one_by_one(word: Seq<char>, gap: char, rest: Seq<char>)
    requires
        word.len() > 0,
        forall|i: int| 0 <= i < word.len() ==> !is_white(#[trigger] word[i]),
        is_white(gap),
    ensures
        words(Seq::<char>::empty()).len() == 0,
        words(seq![gap] + rest) == words(rest),
        words(word) == seq![word],
        words(word.push(gap) + rest) == seq![word] + words(rest),
{
    let g = seq![gap] + rest;
    assert(g.drop_first() =~= rest);
    assert(trim_start(g) == trim_start(rest));
    lemma_whole_word(word);
    let none = word.skip(word.len() as int);
    assert(none =~= Seq::empty());
    assert(word.take(word.len() as int) =~= word);
    let a = word.push(gap) + rest;
    assert(a[0] == word[0]);
    lemma_word_ends(word, gap, rest);
    assert(a.take(word.len() as int) =~= word);
    assert(a.skip(word.len() as int) =~= g);
}

proof fn lemma_whole_word(word: Seq<char>)
    requires
        forall|i: int| 0 <= i < word.len() ==> !is_white(#[trigger] word[i]),
    ensures
        word_len(word) == word.len(),
    decreases word.len(),
{
    if word.len() > 0 {
        lemma_whole_word(word.drop_first());
    }
}

proof fn lemma_word_ends(word: Seq<char>, gap: char, rest: Seq<char>)
    requires
        forall|i: int| 0 <= i < word.len() ==> !is_white(#[trigger] word[i]),
        is_white(gap),
    ensures
        word_len(word.push(gap) + rest) == word.len(),
    decreases word.len(),
{
    let a = word.push(gap) + rest;
    if word.len() > 0 {
        lemma_word_ends(word.drop_first(), gap, rest);
        assert(a.drop_first() =~= word.drop_first().push(gap) + rest);
        assert(a[0] == word[0]);
    } else {
        assert(a[0] == gap);
    }
}

/// What stands after the last occurrence of another text holds it no more, and nothing
/// is cut where it does not occur.
pub proof fn law_the_last_is_cut_off(s: Seq<char>, pattern: Seq<char>)
    requires
        pattern.len() > 0,
    ensures
        !has_part(s, pattern) ==> after_last(s, pattern) == s,
        has_part(s, pattern) ==> has_end(s, pattern + after_last(s, pattern)) && forall|m: int|
            s.len() - after_last(s, pattern).len() - pattern.len() < m <= s.len() ==> !starts_with(
                #[trigger] s.skip(m),
                pattern,
            ),
{
    lemma_last_at(s, pattern, s.len() as int);
    if let Some(n) = last_at(s, pattern, s.len() as int) {
        let n = n as int;
        let k = pattern.len() as int;
        assert(s.skip(n).take(k) == pattern);
        assert forall|i: int| 0 <= i < k implies #[trigger] pattern[i] == s[n + i] by {
            assert(s.skip(n).take(k)[i] == s[n + i]);
        }
        assert(s.skip(n) =~= pattern + s.skip(n + k));
        assert(has_part(s, pattern));
    }
}

proof fn lemma_last_at(s: Seq<char>, pattern: Seq<char>, at: int)
    requires
        at <= s.len(),
    ensures
        last_at(s, pattern, at) matches Some(n) ==> n <= at && starts_with(
            s.skip(n as int),
            pattern,
        ) && forall|m: int| n < m <= at ==> !starts_with(#[trigger] s.skip(m), pattern),
        last_at(s, pattern, at) is None ==> forall|m: int|
            0 <= m <= at ==> !starts_with(#[trigger] s.skip(m), pattern),
    decreases at + 1,
{
    if at >= 0 && !starts_with(s.skip(at), pattern) {
        lemma_last_at(s, pattern, at - 1);
    }
}

/// A text is parted at a byte only where a character ends there, and then nothing is
/// lost and the first part takes so many bytes.
pub proof fn law_bytes_part_a_text(s: Seq<char>, bytes: nat)
    ensures
        split_bytes(s, bytes) matches Some((before, after)) ==> before + after == s && byte_len(
            before,
        ) == bytes,
        forall|n: int|
            0 <= n <= s.len() && byte_len(#[trigger] s.take(n)) == bytes ==> split_bytes(s, bytes)
                == Some((s.take(n), s.skip(n))),
{
    lemma_chars_in_bytes(s, bytes);
    if let Some(n) = chars_in_bytes(s, bytes) {
        assert(s.take(n as int) + s.skip(n as int) =~= s);
    }
}

proof fn lemma_chars_in_bytes(s: Seq<char>, bytes: nat)
    ensures
        chars_in_bytes(s, bytes) matches Some(n) ==> n <= s.len() && byte_len(s.take(n as int))
            == bytes,
        forall|n: int|
            0 <= n <= s.len() && byte_len(#[trigger] s.take(n)) == bytes ==> chars_in_bytes(
                s,
                bytes,
            ) == Some(n as nat),
    decreases s.len(),
{
    let rest = s.drop_first();
    if bytes == 0 {
        assert(s.take(0) =~= Seq::empty());
        assert forall|n: int| 0 <= n <= s.len() && byte_len(#[trigger] s.take(n)) == bytes implies n
            == 0 by {
            if n > 0 {
                assert(s.take(n).len() > 0);
            }
        }
    } else if s.len() > 0 {
        assert forall|n: int| 1 <= n <= s.len() implies byte_len(#[trigger] s.take(n)) == char_bytes(
            s[0],
        ) + byte_len(rest.take(n - 1)) by {
            assert(s.take(n).drop_first() =~= rest.take(n - 1));
        }
        if char_bytes(s[0]) <= bytes {
            lemma_chars_in_bytes(rest, (bytes - char_bytes(s[0])) as nat);
        }
        assert forall|n: int| 0 <= n <= s.len() && byte_len(#[trigger] s.take(n)) == bytes implies chars_in_bytes(
            s,
            bytes,
        ) == Some(n as nat) by {
            if n == 0 {
                assert(s.take(0) =~= Seq::empty());
            }
        }
    } else {
        assert(s.take(0) =~= Seq::empty());
    }
}

/// The parts of a text that end with its lines make up the text again, and none holds a
/// line feed but at its end.
pub proof fn law_line_parts_make_up_the_text(s: Seq<char>)
    ensures
        concat(line_parts(s)) == s,
        s.len() == 0 <==> line_parts(s).len() == 0,
        forall|i: int|
            0 <= i < line_parts(s).len() ==> (#[trigger] line_parts(s)[i]).len() > 0
                && !line_parts(s)[i].drop_last().contains('\n'),
        forall|i: int|
            0 <= i < line_parts(s).len() - 1 ==> (#[trigger] line_parts(s)[i]).last() == '\n',
        s.len() > 0 ==> line_parts(s).last().last() == s.last(),
    decreases s.len(),
{
    let parts = line_parts(s);
    if s.len() > 0 {
        let n = find(s, '\n') as int;
        lemma_find(s, '\n');
        let head = if n + 1 < s.len() {
            s.take(n + 1)
        } else {
            s
        };
        assert forall|i: int| 0 <= i < head.len() - 1 implies head[i] != '\n' by {}
        assert(!head.drop_last().contains('\n'));
        if n + 1 < s.len() {
            let rest = s.skip(n + 1);
            law_line_parts_make_up_the_text(rest);
            lemma_concat_front(head, line_parts(rest));
            assert(head + rest =~= s);
            assert forall|i: int| 0 <= i < parts.len() implies (#[trigger] parts[i]).len() > 0
                && !parts[i].drop_last().contains('\n') by {
                if i > 0 {
                    assert(parts[i] == line_parts(rest)[i - 1]);
                }
            }
            assert forall|i: int| 0 <= i < parts.len() - 1 implies (#[trigger] parts[i]).last()
                == '\n' by {
                if i > 0 {
                    assert(parts[i] == line_parts(rest)[i - 1]);
                }
            }
            assert(parts.last() == line_parts(rest).last());
        } else {
            lemma_concat_front(s, Seq::empty());
            assert(seq![s] + Seq::<Seq<char>>::empty() =~= seq![s]);
            assert(s + concat(Seq::empty()) =~= s);
        }
    }
}

proof fn lemma_concat_front(first: Seq<char>, rest: Seq<Seq<char>>)
    ensures
        concat(seq![first] + rest) == first + concat(rest),
    decreases rest.len(),
{
    let all = seq![first] + rest;
    if rest.len() == 0 {
        assert(all.drop_last() =~= Seq::<Seq<char>>::empty());
        reveal_with_fuel(concat, 2);
        assert(concat(all) =~= first + concat(rest));
    } else {
        lemma_concat_front(first, rest.drop_last());
        assert(all.drop_last() =~= seq![first] + rest.drop_last());
        assert(concat(all) =~= first + concat(rest));
    }
}

/// A number is written in decimal: a digit for what is below ten, and behind the digits of
/// the tens a digit for the ones. Nothing but the ten digits is a digit.
pub proof fn law_numbers_are_written_in_decimal(tens: nat, ones: nat, c: char)
    requires
        ones < 10,
    ensures
        decimal(ones) == seq![('0' as int + ones) as char],
        tens > 0 ==> decimal(10 * tens + ones) == decimal(tens).push(('0' as int + ones) as char),
        is_digit(c) <==> '0' <= c <= '9',
{
    if tens > 0 {
        assert((10 * tens + ones) / 10 == tens && (10 * tens + ones) % 10 == ones)
            by (nonlinear_arith)
            requires
                ones < 10,
        ;
    }
}

proof fn lemma_leading_zero(digits: Seq<char>)
    ensures
        digits_value(seq!['0'] + digits) == digits_value(digits),
    decreases digits.len(),
{
    let all = seq!['0'] + digits;
    if digits.len() == 0 {
        assert(all.drop_last() =~= Seq::<char>::empty());
        reveal_with_fuel(digits_value, 2);
    } else {
        lemma_leading_zero(digits.drop_last());
        assert(all.drop_last() =~= seq!['0'] + digits.drop_last());
    }
}

/// Zeros before a number and a plus sign make no difference, and a number is refused that
/// starts with anything but a digit or a sign.
pub proof fn law_leading_zeros_do_not_matter(digits: Seq<char>, s: Seq<char>, max: nat)
    requires
        digits.len() > 0,
        is_digit(digits[0]),
    ensures
        parse_unsigned(seq!['0'] + digits, max) == parse_unsigned(digits, max),
        parse_unsigned(seq!['+'] + digits, max) == parse_unsigned(digits, max),
        parse_signed(seq!['0'] + digits) == parse_signed(digits),
        parse_signed(seq!['+'] + digits) == parse_signed(digits),
        s.len() > 0 && !is_digit(s[0]) && s[0] != '+' ==> parse_unsigned(s, max) is None,
        s.len() > 0 && !is_digit(s[0]) && s[0] != '+' && s[0] != '-' ==> parse_signed(s) is None,
        s.len() == 1 && !is_digit(s[0]) ==> parse_unsigned(s, max) is None && parse_signed(s)
            is None,
{
    let zero = seq!['0'] + digits;
    let plus = seq!['+'] + digits;
    lemma_leading_zero(digits);
    assert(plus.skip(1) =~= digits);
    assert(all_digits(zero) <==> all_digits(digits)) by {
        if all_digits(digits) {
            assert forall|i: int| 0 <= i < zero.len() implies is_digit(#[trigger] zero[i]) by {
                if i > 0 {
                    assert(zero[i] == digits[i - 1]);
                }
            }
        }
        if all_digits(zero) {
            assert forall|i: int| 0 <= i < digits.len() implies is_digit(#[trigger] digits[i]) by {
                assert(digits[i] == zero[i + 1]);
            }
        }
    }
    if s.len() == 1 && !is_digit(s[0]) {
        assert(s.skip(1).len() == 0);
    }
}

/// A text starts with another, ends with it, or holds it, exactly where it can be put
/// together from it and what is left.
pub proof fn law_parts_put_a_text_together(s: Seq<char>, part: Seq<char>, a: Seq<char>, b: Seq<char>)
    ensures
        starts_with(part + b, part),
        starts_with(s, part) ==> s == part + s.skip(part.len() as int),
        has_end(a + part, part),
        has_end(s, part) ==> s == s.take(s.len() - part.len()) + part,
        has_part(a + part + b, part),
        starts_with(s, part) || has_end(s, part) ==> has_part(s, part),
        has_part(s, part) ==> s.len() >= part.len(),
{
    assert((part + b).take(part.len() as int) =~= part);
    assert((a + part).skip(a.len() as int) =~= part);
    lemma_part_between(a, part, b);
    if starts_with(s, part) {
        let k = part.len() as int;
        assert(s.take(k) + s.skip(k) =~= s);
        lemma_part_between(Seq::empty(), part, s.skip(k));
        assert(Seq::<char>::empty() + part + s.skip(k) =~= s);
    }
    if has_end(s, part) {
        let k = s.len() - part.len();
        assert(s.take(k) + s.skip(k) =~= s);
        lemma_part_at_end(s.take(k), part);
    }
}

/// A difference is never less than nothing.
pub proof fn law_differences_stop_at_nothing(a: nat, b: nat)
    ensures
        less(a + b, b) == a,
        less(a, a + b) == 0,
{
}

/// The texts of a list are those of its strings, one for one.
pub proof fn law_texts_are_those_of_the_strings(list: Seq<String>, s: String, i: int)
    ensures
        texts(list).len() == list.len(),
        0 <= i < list.len() ==> texts(list)[i] == list[i]@,
        opt_text(Some(s)) == Some(s@),
        opt_text(None) is None,
{
}

} // verus!
