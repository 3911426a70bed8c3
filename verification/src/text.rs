//! Text on the library's own terms: the pieces of `str` that the parsers and
//! the formatters need, each with the sequence of characters it stands for.

use vstd::prelude::*;
use vstd::string::StringExecFns;
use vstd::string::StringSliceAdditionalSpecFns;

verus! {

/// `String::push` appends the given character to the end of the string.
pub assume_specification[ String::push ](s: &mut String, c: char)
    ensures
        final(s)@ == old(s)@.push(c),
;

/// The characters of a string, one by one.
pub fn chars_of(s: &str) -> (r: Vec<char>)
    ensures
        r@ == s@,
{
    let mut out: Vec<char> = Vec::new();
    for c in it: s.chars()
        invariant
            out@ == it.seq().take(it.index() as int),
            it.seq() == s@,
    {
        out.push(c);
        assert(out@ =~= it.seq().take(it.index() + 1));
    }
    assert(s@.take(s@.len() as int) =~= s@);
    out
}

/// The string made of the characters `from..to` of `chars`.
pub fn string_of(chars: &Vec<char>, from: usize, to: usize) -> (r: String)
    requires
        from <= to <= chars@.len(),
    ensures
        r@ == chars@.subrange(from as int, to as int),
{
    let mut out = String::new();
    let mut i: usize = from;
    while i < to
        invariant
            from <= i <= to <= chars@.len(),
            out@ == chars@.subrange(from as int, i as int),
        decreases to - i,
    {
        out.push(chars[i]);
        i += 1;
        assert(out@ =~= chars@.subrange(from as int, i as int));
    }
    out
}

/// The character of a decimal digit.
pub open spec fn digit_char(d: int) -> char {
    ('0' as int + d) as char
}

/// The decimal notation of `n`, without leading zeros.
pub open spec fn decimal(n: nat) -> Seq<char>
    decreases n,
{
    if n < 10 {
        seq![digit_char(n as int)]
    } else {
        decimal(n / 10).push(digit_char((n % 10) as int))
    }
}

/// The decimal notation of a signed number: a minus sign in front where it is
/// negative.
pub open spec fn signed_decimal(n: int) -> Seq<char> {
    if n < 0 {
        seq!['-'] + decimal((-n) as nat)
    } else {
        decimal(n as nat)
    }
}

fn digit(d: u64) -> (c: char)
    requires
        d < 10,
    ensures
        c == digit_char(d as int),
{
    (48u8 + d as u8) as char
}

/// The decimal notation of `n`.
pub fn decimal_text(n: u64) -> (r: String)
    ensures
        r@ == decimal(n as nat),
    decreases n,
{
    if n < 10 {
        let mut out = String::new();
        out.push(digit(n));
        assert(out@ =~= decimal(n as nat));
        out
    } else {
        let mut out = decimal_text(n / 10);
        out.push(digit(n % 10));
        out
    }
}

/// The decimal notation of a signed number.
pub fn signed_decimal_text(n: i32) -> (r: String)
    ensures
        r@ == signed_decimal(n as int),
{
    if n < 0 {
        let mut out = String::new();
        out.push('-');
        let magnitude: i64 = -(n as i64);
        let rest = decimal_text(magnitude as u64);
        out.append(rest.as_str());
        assert(out@ =~= signed_decimal(n as int));
        out
    } else {
        decimal_text(n as u64)
    }
}

/// The character of a hexadecimal digit, in lower case.
pub open spec fn hex_char(d: int) -> char {
    if d < 10 {
        digit_char(d)
    } else {
        ('a' as int + (d - 10)) as char
    }
}

/// `n` in hexadecimal with leading zeros up to four digits.
pub open spec fn hex4(n: u16) -> Seq<char> {
    seq![
        hex_char(n as int / 4096),
        hex_char(n as int / 256 % 16),
        hex_char(n as int / 16 % 16),
        hex_char(n as int % 16),
    ]
}

fn hex_digit(d: u16) -> (c: char)
    requires
        d < 16,
    ensures
        c == hex_char(d as int),
{
    if d < 10 {
        (48u8 + d as u8) as char
    } else {
        (97u8 + (d - 10) as u8) as char
    }
}

/// `n` in hexadecimal with leading zeros up to four digits.
pub fn hex4_text(n: u16) -> (r: String)
    ensures
        r@ == hex4(n),
{
    let mut out = String::new();
    out.push(hex_digit(n / 4096));
    out.push(hex_digit(n / 256 % 16));
    out.push(hex_digit(n / 16 % 16));
    out.push(hex_digit(n % 16));
    assert(out@ =~= hex4(n));
    out
}

/// Unicode's `White_Space`, which is what `char::is_whitespace` tests.
pub open spec fn is_white(c: char) -> bool {
    let n = c as u32;
    ||| 0x09 <= n <= 0x0d
    ||| n == 0x20
    ||| n == 0x85
    ||| n == 0xa0
    ||| n == 0x1680
    ||| 0x2000 <= n <= 0x200a
    ||| n == 0x2028
    ||| n == 0x2029
    ||| n == 0x202f
    ||| n == 0x205f
    ||| n == 0x3000
}

/// Whether `c` is white space.
pub fn is_whitespace(c: char) -> (r: bool)
    ensures
        r == is_white(c),
{
    let n: u32 = c as u32;
    (0x09 <= n && n <= 0x0d) || n == 0x20 || n == 0x85 || n == 0xa0 || n == 0x1680 || (0x2000 <= n
        && n <= 0x200a) || n == 0x2028 || n == 0x2029 || n == 0x202f || n == 0x205f || n == 0x3000
}

/// `s` without the white space it starts with.
pub open spec fn trim_start(s: Seq<char>) -> Seq<char>
    decreases s.len(),
{
    if s.len() > 0 && is_white(s[0]) {
        trim_start(s.drop_first())
    } else {
        s
    }
}

/// `s` without the white space it ends with.
pub open spec fn trim_end(s: Seq<char>) -> Seq<char>
    decreases s.len(),
{
    if s.len() > 0 && is_white(s.last()) {
        trim_end(s.drop_last())
    } else {
        s
    }
}

/// `s` without the white space around it.
pub open spec fn trim(s: Seq<char>) -> Seq<char> {
    trim_end(trim_start(s))
}

/// The longest prefix of `s` that holds no white space.
pub open spec fn until_white(s: Seq<char>) -> Seq<char>
    decreases s.len(),
{
    if s.len() == 0 || is_white(s[0]) {
        Seq::empty()
    } else {
        seq![s[0]] + until_white(s.drop_first())
    }
}

/// The first of the words that white space separates in `s`, if there is one.
pub open spec fn first_word(s: Seq<char>) -> Option<Seq<char>> {
    let rest = trim_start(s);
    if rest.len() == 0 {
        None
    } else {
        Some(until_white(rest))
    }
}

fn skip_white(chars: &Vec<char>) -> (from: usize)
    ensures
        from <= chars@.len(),
        trim_start(chars@) == chars@.skip(from as int),
        from < chars@.len() ==> !is_white(chars@[from as int]),
{
    let mut from: usize = 0;
    assert(chars@.skip(0) =~= chars@);
    while from < chars.len() && is_whitespace(chars[from])
        invariant
            from <= chars@.len(),
            trim_start(chars@) == trim_start(chars@.skip(from as int)),
        decreases chars@.len() - from,
    {
        assert(chars@.skip(from as int).drop_first() =~= chars@.skip(from + 1));
        from += 1;
    }
    from
}

/// `s` without the white space around it.
pub fn trimmed(s: &str) -> (r: String)
    ensures
        r@ == trim(s@),
{
    let chars = chars_of(s);
    let from = skip_white(&chars);
    let mut to: usize = chars.len();
    assert(chars@.skip(from as int) =~= chars@.subrange(from as int, to as int));
    while from < to && is_whitespace(chars[to - 1])
        invariant
            from <= to <= chars@.len(),
            trim(chars@) == trim_end(chars@.subrange(from as int, to as int)),
        decreases to,
    {
        assert(chars@.subrange(from as int, to as int).drop_last() =~= chars@.subrange(
            from as int,
            to - 1,
        ));
        to -= 1;
    }
    string_of(&chars, from, to)
}

/// The first word of `s`.
pub fn first_word_of(s: &str) -> (r: Option<String>)
    ensures
        match r {
            Some(word) => first_word(s@) == Some(word@),
            None => first_word(s@) is None,
        },
{
    let chars = chars_of(s);
    let from = skip_white(&chars);
    if from == chars.len() {
        return None;
    }
    let mut to: usize = from;
    let ghost rest = chars@.skip(from as int);
    assert(chars@.subrange(from as int, to as int) + until_white(chars@.skip(to as int))
        =~= until_white(rest));
    while to < chars.len() && !is_whitespace(chars[to])
        invariant
            from <= to <= chars@.len(),
            chars@.subrange(from as int, to as int) + until_white(chars@.skip(to as int))
                == until_white(rest),
        decreases chars@.len() - to,
    {
        assert(chars@.skip(to as int).drop_first() =~= chars@.skip(to + 1));
        assert(chars@.subrange(from as int, to as int) + (seq![chars@[to as int]] + until_white(
            chars@.skip(to + 1),
        )) =~= chars@.subrange(from as int, to + 1) + until_white(chars@.skip(to + 1)));
        to += 1;
    }
    assert(until_white(chars@.skip(to as int)) =~= Seq::empty());
    assert(chars@.subrange(from as int, to as int) =~= until_white(rest));
    Some(string_of(&chars, from, to))
}

/// The position of the first `c` in `s`.
pub open spec fn first_index(s: Seq<char>, c: char) -> Option<int>
    decreases s.len(),
{
    if s.len() == 0 {
        None
    } else if s[0] == c {
        Some(0)
    } else {
        match first_index(s.drop_first(), c) {
            Some(i) => Some(i + 1),
            None => None,
        }
    }
}

/// What `first_index` finds: the position holds `c` and no earlier one does.
pub proof fn lemma_first_index(s: Seq<char>, c: char)
    ensures
        match first_index(s, c) {
            Some(i) => 0 <= i < s.len() && s[i] == c && (forall|j: int| 0 <= j < i ==> s[j] != c),
            None => forall|j: int| 0 <= j < s.len() ==> s[j] != c,
        },
    decreases s.len(),
{
    if s.len() > 0 && s[0] != c {
        lemma_first_index(s.drop_first(), c);
        let rest = s.drop_first();
        assert forall|j: int| 0 < j < s.len() implies s[j] == rest[j - 1] by {}
    }
}

/// A position that holds `c` where no earlier one does is what `first_index`
/// finds.
pub proof fn lemma_first_index_unique(s: Seq<char>, c: char, i: int)
    requires
        0 <= i < s.len(),
        s[i] == c,
        forall|j: int| 0 <= j < i ==> s[j] != c,
    ensures
        first_index(s, c) == Some(i),
{
    lemma_first_index(s, c);
}

/// A line without the carriage return that a newline took with it.
pub open spec fn strip_cr(line: Seq<char>) -> Seq<char> {
    if line.len() > 0 && line.last() == '\r' {
        line.drop_last()
    } else {
        line
    }
}

/// The lines of `s`: a newline ends a line, together with a carriage return
/// right before it, and the last line needs no newline.
pub open spec fn lines(s: Seq<char>) -> Seq<Seq<char>>
    decreases s.len(),
{
    match first_index(s, '\n') {
        Some(i) => if 0 <= i < s.len() {
            seq![strip_cr(s.take(i))] + lines(s.skip(i + 1))
        } else {
            Seq::empty()
        },
        None => if s.len() == 0 {
            Seq::empty()
        } else {
            seq![s]
        },
    }
}

/// The views of a list of strings.
pub open spec fn views(list: Seq<String>) -> Seq<Seq<char>> {
    list.map_values(|s: String| s@)
}

/// The lines of `s`.
pub fn lines_of(s: &str) -> (r: Vec<String>)
    ensures
        views(r@) == lines(s@),
{
    let chars = chars_of(s);
    let mut out: Vec<String> = Vec::new();
    let mut from: usize = 0;
    let mut at: usize = 0;
    assert(chars@.skip(0) =~= chars@);
    assert(views(out@) + lines(chars@.skip(0)) =~= lines(chars@));
    while at < chars.len()
        invariant
            from <= at <= chars@.len(),
            views(out@) + lines(chars@.skip(from as int)) == lines(chars@),
            forall|j: int| from <= j < at ==> chars@[j] != '\n',
        decreases chars@.len() - at,
    {
        if chars[at] == '\n' {
            let ghost before = out@;
            let ghost rest = chars@.skip(from as int);
            let end: usize = if from < at && chars[at - 1] == '\r' {
                at - 1
            } else {
                at
            };
            let line = string_of(&chars, from, end);
            proof {
                lemma_first_index_unique(rest, '\n', at - from);
                assert(rest.take(at - from) =~= chars@.subrange(from as int, at as int));
                assert(strip_cr(rest.take(at - from)) =~= chars@.subrange(from as int, end as int));
                assert(rest.skip(at - from + 1) =~= chars@.skip(at + 1));
            }
            out.push(line);
            proof {
                assert(views(out@) =~= views(before).push(line@));
                assert(views(out@) + lines(chars@.skip(at + 1)) =~= views(before) + lines(rest));
            }
            from = at + 1;
        }
        at += 1;
    }
    let ghost rest = chars@.skip(from as int);
    proof {
        lemma_first_index(rest, '\n');
        if first_index(rest, '\n') is Some {
            let i = first_index(rest, '\n')->0;
            assert(rest[i] == chars@[from + i]);
        }
    }
    if from < chars.len() {
        let ghost before = out@;
        let line = string_of(&chars, from, chars.len());
        assert(line@ =~= rest);
        out.push(line);
        assert(views(out@) =~= views(before) + seq![rest]);
    } else {
        assert(views(out@) =~= views(out@) + lines(rest));
    }
    out
}

/// Whether `s` starts with `prefix`.
pub open spec fn starts(s: Seq<char>, prefix: Seq<char>) -> bool {
    prefix.len() <= s.len() && s.take(prefix.len() as int) == prefix
}

/// Whether `s` starts with `prefix`.
pub fn starts_with(s: &str, prefix: &str) -> (r: bool)
    ensures
        r == starts(s@, prefix@),
{
    let a = chars_of(s);
    let b = chars_of(prefix);
    if b.len() > a.len() {
        return false;
    }
    let mut i: usize = 0;
    while i < b.len()
        invariant
            i <= b@.len() <= a@.len(),
            a@ == s@,
            b@ == prefix@,
            forall|j: int| 0 <= j < i ==> a@[j] == b@[j],
        decreases b@.len() - i,
    {
        if a[i] != b[i] {
            assert(s@.take(prefix@.len() as int)[i as int] != prefix@[i as int]);
            return false;
        }
        i += 1;
    }
    assert(s@.take(prefix@.len() as int) =~= prefix@);
    true
}

/// Whether `needle` stands in `hay` at `at`.
pub open spec fn occurs_at(hay: Seq<u8>, needle: Seq<u8>, at: int) -> bool {
    0 <= at && at + needle.len() <= hay.len() && hay.subrange(at, at + needle.len() as int) == needle
}

/// `at` is the first place in `hay` where `needle` stands.
pub open spec fn first_occurrence(hay: Seq<u8>, needle: Seq<u8>, at: int) -> bool {
    occurs_at(hay, needle, at) && forall|j: int| 0 <= j < at ==> !#[trigger] occurs_at(hay, needle, j)
}

/// The first place in `hay` where `needle` stands, if it does.
pub open spec fn first_at(hay: Seq<u8>, needle: Seq<u8>) -> Option<int> {
    if exists|at: int| first_occurrence(hay, needle, at) {
        Some(choose|at: int| first_occurrence(hay, needle, at))
    } else {
        None
    }
}

/// There is at most one first place.
proof fn lemma_first_at(hay: Seq<u8>, needle: Seq<u8>, at: int)
    requires
        first_occurrence(hay, needle, at),
    ensures
        first_at(hay, needle) == Some(at),
{
    let x = choose|x: int| first_occurrence(hay, needle, x);
    assert(occurs_at(hay, needle, x) && occurs_at(hay, needle, at));
}

/// The byte offset at which `needle` first stands in `hay`.
pub fn find(hay: &str, needle: &str) -> (r: Option<usize>)
    ensures
        match r {
            Some(at) => first_at(hay.spec_bytes(), needle.spec_bytes()) == Some(at as int),
            None => first_at(hay.spec_bytes(), needle.spec_bytes()) is None,
        },
{
    let h = hay.as_bytes();
    let n = needle.as_bytes();
    if n.len() > h.len() {
        return None;
    }
    let last: usize = h.len() - n.len();
    let mut at: usize = 0;
    while at <= last
        invariant
            h@ == hay.spec_bytes(),
            n@ == needle.spec_bytes(),
            n@.len() <= h@.len(),
            last == h@.len() - n@.len(),
            h@.len() <= usize::MAX,
            at <= last + 1,
            forall|j: int| 0 <= j < at ==> !#[trigger] occurs_at(h@, n@, j),
        decreases last + 1 - at,
    {
        let mut i: usize = 0;
        while i < n.len() && h[at + i] == n[i]
            invariant
                n@.len() <= h@.len(),
                last == h@.len() - n@.len(),
                h@.len() <= usize::MAX,
                at <= last,
                i <= n@.len(),
                forall|j: int| 0 <= j < i ==> h@[at + j] == n@[j],
            decreases n@.len() - i,
        {
            i += 1;
        }
        if i == n.len() {
            proof {
                assert(h@.subrange(at as int, at + n@.len() as int) =~= n@);
                lemma_first_at(h@, n@, at as int);
            }
            return Some(at);
        }
        assert(h@.subrange(at as int, at + n@.len() as int)[i as int] != n@[i as int]);
        if at == last {
            return None;
        }
        at += 1;
    }
    None
}

/// Whether two strings are the same.
pub fn same(a: &str, b: &str) -> (r: bool)
    ensures
        r == (a@ == b@),
{
    let x = chars_of(a);
    let y = chars_of(b);
    if x.len() != y.len() {
        return false;
    }
    let mut i: usize = 0;
    while i < x.len()
        invariant
            i <= x@.len() == y@.len(),
            x@ == a@,
            y@ == b@,
            forall|j: int| 0 <= j < i ==> x@[j] == y@[j],
        decreases x@.len() - i,
    {
        if x[i] != y[i] {
            assert(a@[i as int] != b@[i as int]);
            return false;
        }
        i += 1;
    }
    assert(a@ =~= b@);
    true
}

/// `a` followed by `b`.
pub fn joined(a: &str, b: &str) -> (r: String)
    ensures
        r@ == a@ + b@,
{
    let mut out = a.to_owned();
    out.append(b);
    out
}

/// The views of a list of string slices.
pub open spec fn slice_views(list: Seq<&str>) -> Seq<Seq<char>> {
    list.map_values(|s: &str| s@)
}

/// Owned copies of string slices.
pub fn words(list: &Vec<&str>) -> (r: Vec<String>)
    ensures
        views(r@) == slice_views(list@),
{
    let mut out: Vec<String> = Vec::new();
    let mut i: usize = 0;
    while i < list.len()
        invariant
            i <= list@.len(),
            out@.len() == i,
            forall|j: int| 0 <= j < i ==> (#[trigger] out@[j])@ == list@[j]@,
        decreases list@.len() - i,
    {
        out.push(list[i].to_owned());
        i += 1;
    }
    assert(views(out@) =~= slice_views(list@));
    out
}

/// Decimal numbers are positional: a number below ten is one digit, and ten times a
/// number plus a digit is the number followed by the digit. Negative ones have a
/// sign ahead of them.
pub proof fn law_decimal_is_positional(q: nat, d: nat)
    requires
        d < 10,
    ensures
        decimal(d) == seq![(0x30 + d) as char],
        q > 0 ==> decimal(10 * q + d) == decimal(q) + seq![(0x30 + d) as char],
        signed_decimal(q as int) == decimal(q),
        q > 0 ==> signed_decimal(-(q as int)) == seq!['-'] + decimal(q),
{
    if q > 0 {
        let n = 10 * q + d;
        assert(n / 10 == q && n % 10 == d);
        assert(decimal(n) =~= decimal(q) + seq![(0x30 + d) as char]);
    }
}

proof fn lemma_nibbles(a: int, b: int, c: int, d: int)
    requires
        0 <= a < 16,
        0 <= b < 16,
        0 <= c < 16,
        0 <= d < 16,
    ensures
        (a * 4096 + b * 256 + c * 16 + d) / 4096 == a,
        (a * 4096 + b * 256 + c * 16 + d) / 256 % 16 == b,
        (a * 4096 + b * 256 + c * 16 + d) / 16 % 16 == c,
        (a * 4096 + b * 256 + c * 16 + d) % 16 == d,
{
    let n = a * 4096 + b * 256 + c * 16 + d;
    assert(n / 256 == a * 16 + b);
    assert(n / 16 == a * 256 + b * 16 + c);
}

/// Four hexadecimal digits, the most significant first, in lower case.
pub proof fn law_hex_is_positional(n: u16, a: int, b: int, c: int, d: int)
    requires
        0 <= a < 16,
        0 <= b < 16,
        0 <= c < 16,
        0 <= d < 16,
        n == a * 4096 + b * 256 + c * 16 + d,
    ensures
        hex4(n).len() == 4,
        hex4(n)[0] == (if a < 10 {
            0x30 + a
        } else {
            0x57 + a
        }) as char,
        hex4(n)[1] == (if b < 10 {
            0x30 + b
        } else {
            0x57 + b
        }) as char,
        hex4(n)[2] == (if c < 10 {
            0x30 + c
        } else {
            0x57 + c
        }) as char,
        hex4(n)[3] == (if d < 10 {
            0x30 + d
        } else {
            0x57 + d
        }) as char,
{
    lemma_nibbles(a, b, c, d);
    assert(hex4(n) =~= seq![hex_char(a), hex_char(b), hex_char(c), hex_char(d)]);
    assert forall|x: int| 0 <= x < 16 implies #[trigger] hex_char(x) == (if x < 10 {
        0x30 + x
    } else {
        0x57 + x
    }) as char by {}
}

/// White space is what Unicode takes for it: the tab and the four control
/// characters behind it, the space, and the spaces and separators outside ASCII.
pub proof fn law_white_space(c: char)
    ensures
        c as u32 <= 0x7f ==> (is_white(c) <==> c == ' ' || 0x09 <= c as u32 <= 0x0d),
        is_white(c) <==> seq![
            0x09u32,
            0x0a,
            0x0b,
            0x0c,
            0x0d,
            0x20,
            0x85,
            0xa0,
            0x1680,
            0x2028,
            0x2029,
            0x202f,
            0x205f,
            0x3000,
        ].contains(c as u32) || 0x2000 <= c as u32 <= 0x200a,
{
    let list = seq![
        0x09u32,
        0x0a,
        0x0b,
        0x0c,
        0x0d,
        0x20,
        0x85,
        0xa0,
        0x1680,
        0x2028,
        0x2029,
        0x202f,
        0x205f,
        0x3000,
    ];
    let n = c as u32;
    if is_white(c) && !(0x2000 <= n <= 0x200a) {
        assert(list[0] == 0x09 && list[1] == 0x0a && list[2] == 0x0b && list[3] == 0x0c && list[4]
            == 0x0d && list[5] == 0x20 && list[6] == 0x85 && list[7] == 0xa0 && list[8] == 0x1680
            && list[9] == 0x2028 && list[10] == 0x2029 && list[11] == 0x202f && list[12] == 0x205f
            && list[13] == 0x3000);
        assert(list.contains(n));
    }
    if list.contains(n) {
        let i = choose|i: int| 0 <= i < list.len() && list[i] == n;
        assert(list[i] == n);
    }
}

proof fn lemma_trim_start(s: Seq<char>) -> (i: int)
    ensures
        0 <= i <= s.len(),
        trim_start(s) == s.skip(i),
        forall|k: int| 0 <= k < i ==> is_white(#[trigger] s[k]),
        i < s.len() ==> !is_white(s[i]),
    decreases s.len(),
{
    if s.len() > 0 && is_white(s[0]) {
        let rest = s.drop_first();
        let j = lemma_trim_start(rest);
        assert(rest.skip(j) =~= s.skip(j + 1));
        assert forall|k: int| 0 <= k < j + 1 implies is_white(#[trigger] s[k]) by {
            if k > 0 {
                assert(is_white(rest[k - 1]));
            }
        }
        j + 1
    } else {
        assert(s.skip(0) =~= s);
        0
    }
}

proof fn lemma_trim_end(s: Seq<char>) -> (j: int)
    ensures
        0 <= j <= s.len(),
        trim_end(s) == s.take(j),
        forall|k: int| j <= k < s.len() ==> is_white(#[trigger] s[k]),
        j > 0 ==> !is_white(s[j - 1]),
    decreases s.len(),
{
    if s.len() > 0 && is_white(s.last()) {
        let rest = s.drop_last();
        let j = lemma_trim_end(rest);
        assert(rest.take(j) =~= s.take(j));
        assert forall|k: int| j <= k < s.len() implies is_white(#[trigger] s[k]) by {
            if k < rest.len() {
                assert(is_white(rest[k]));
            }
        }
        j
    } else {
        assert(s.take(s.len() as int) =~= s);
        s.len() as int
    }
}

/// Trimming takes away the white space around a text and nothing else: what is left
/// stands in the text with only white space before and behind it, and neither begins
/// nor ends with any.
pub proof fn law_trim_keeps_the_middle(s: Seq<char>)
    ensures
        exists|i: int, j: int|
            0 <= i <= j <= s.len() && trim(s) == #[trigger] s.subrange(i, j) && (forall|k: int|
                0 <= k < i || j <= k < s.len() ==> is_white(#[trigger] s[k])),
        trim(s).len() > 0 ==> !is_white(trim(s)[0]) && !is_white(trim(s).last()),
{
    let i = lemma_trim_start(s);
    let t = s.skip(i);
    let m = lemma_trim_end(t);
    assert(t.take(m) =~= s.subrange(i, i + m));
    assert forall|k: int| 0 <= k < i || i + m <= k < s.len() implies is_white(#[trigger] s[k]) by {
        if k >= i {
            assert(t[k - i] == s[k]);
        }
    }
    if m > 0 {
        assert(trim(s)[0] == s[i]);
        assert(trim(s).last() == t[m - 1]);
    }
}

proof fn lemma_until_white(s: Seq<char>) -> (k: int)
    ensures
        0 <= k <= s.len(),
        until_white(s) == s.take(k),
        forall|j: int| 0 <= j < k ==> !is_white(#[trigger] s[j]),
        k < s.len() ==> is_white(s[k]),
    decreases s.len(),
{
    if s.len() == 0 || is_white(s[0]) {
        assert(s.take(0) =~= Seq::empty());
        0
    } else {
        let rest = s.drop_first();
        let j = lemma_until_white(rest);
        assert(seq![s[0]] + rest.take(j) =~= s.take(j + 1));
        assert forall|i: int| 0 <= i < j + 1 implies !is_white(#[trigger] s[i]) by {
            if i > 0 {
                assert(!is_white(rest[i - 1]));
            }
        }
        j + 1
    }
}

/// The first word of a text: what stands behind the white space at its beginning, up
/// to the next white space or the end. A text of white space has none.
pub proof fn law_first_word(s: Seq<char>)
    ensures
        first_word(s) is None <==> forall|k: int| 0 <= k < s.len() ==> is_white(#[trigger] s[k]),
        first_word(s) is Some ==> exists|i: int, j: int|
            0 <= i < j <= s.len() && first_word(s)->0 == #[trigger] s.subrange(i, j) && (forall|
                k: int,
            |
                0 <= k < i ==> is_white(#[trigger] s[k])) && (forall|k: int|
                i <= k < j ==> !is_white(#[trigger] s[k])) && (j < s.len() ==> is_white(s[j])),
{
    let i = lemma_trim_start(s);
    let t = s.skip(i);
    let m = lemma_until_white(t);
    if i < s.len() {
        assert(t[0] == s[i]);
        assert(m > 0);
        assert(t.take(m) =~= s.subrange(i, i + m));
        assert forall|k: int| i <= k < i + m implies !is_white(#[trigger] s[k]) by {
            assert(t[k - i] == s[k]);
        }
        if i + m < s.len() {
            assert(t[m] == s[i + m]);
        }
        assert(0 <= i < i + m <= s.len() && first_word(s)->0 == s.subrange(i, i + m));
    }
}

/// The lines of a text: up to each newline, without the newline and without a
/// carriage return ahead of it; and what stands behind the last newline, if
/// anything does.
pub proof fn law_lines_split_at_newlines(s: Seq<char>, t: Seq<char>)
    requires
        forall|k: int| 0 <= k < s.len() ==> #[trigger] s[k] != '\n',
    ensures
        s.len() == 0 ==> lines(s).len() == 0,
        s.len() > 0 ==> lines(s) == seq![s],
        s.len() > 0 && s.last() == '\r' ==> lines(s + seq!['\n'] + t) == seq![s.drop_last()]
            + lines(t),
        s.len() == 0 || s.last() != '\r' ==> lines(s + seq!['\n'] + t) == seq![s] + lines(t),
{
    lemma_first_index(s, '\n');
    assert(lines(s) =~= if s.len() == 0 {
        Seq::empty()
    } else {
        seq![s]
    });
    let u = s + seq!['\n'] + t;
    let i = s.len() as int;
    assert(u[i] == '\n');
    assert forall|j: int| 0 <= j < i implies u[j] != '\n' by {
        assert(u[j] == s[j]);
    }
    lemma_first_index_unique(u, '\n', i);
    assert(u.take(i) =~= s);
    assert(u.skip(i + 1) =~= t);
}

/// A text starts with another where it has at least its length and the same
/// characters at its beginning.
pub proof fn law_starts(s: Seq<char>, prefix: Seq<char>, rest: Seq<char>)
    ensures
        starts(s, prefix) <==> prefix.len() <= s.len() && forall|i: int|
            0 <= i < prefix.len() ==> #[trigger] s[i] == prefix[i],
        starts(prefix + rest, prefix),
{
    if prefix.len() <= s.len() && forall|i: int|
        0 <= i < prefix.len() ==> #[trigger] s[i] == prefix[i] {
        assert(s.take(prefix.len() as int) =~= prefix);
    }
    if starts(s, prefix) {
        assert forall|i: int| 0 <= i < prefix.len() implies #[trigger] s[i] == prefix[i] by {
            assert(s.take(prefix.len() as int)[i] == s[i]);
        }
    }
    assert((prefix + rest).take(prefix.len() as int) =~= prefix);
}

proof fn lemma_least_occurrence(hay: Seq<u8>, needle: Seq<u8>, at: int) -> (least: int)
    requires
        occurs_at(hay, needle, at),
    ensures
        first_occurrence(hay, needle, least),
    decreases at,
{
    if exists|j: int| 0 <= j < at && #[trigger] occurs_at(hay, needle, j) {
        let j = choose|j: int| 0 <= j < at && #[trigger] occurs_at(hay, needle, j);
        lemma_least_occurrence(hay, needle, j)
    } else {
        at
    }
}

/// What is found of a text in another is its first occurrence, and it is found
/// wherever it occurs at all.
pub proof fn law_first_occurrence_is_found(hay: Seq<u8>, needle: Seq<u8>, at: int)
    requires
        0 <= at,
        at + needle.len() <= hay.len(),
        hay.subrange(at, at + needle.len() as int) == needle,
    ensures
        first_at(hay, needle) is Some,
        ({
            let found = first_at(hay, needle)->0;
            &&& 0 <= found <= at
            &&& hay.subrange(found, found + needle.len() as int) == needle
        }),
{
    assert(occurs_at(hay, needle, at));
    let least = lemma_least_occurrence(hay, needle, at);
    lemma_first_at(hay, needle, least);
}

/// What occurs nowhere is not found.
pub proof fn law_nothing_to_find(hay: Seq<u8>, needle: Seq<u8>)
    requires
        forall|at: int|
            0 <= at && at + needle.len() <= hay.len() ==> #[trigger] hay.subrange(
                at,
                at + needle.len() as int,
            ) != needle,
    ensures
        first_at(hay, needle) is None,
{
    assert forall|at: int| !#[trigger] first_occurrence(hay, needle, at) by {
        if occurs_at(hay, needle, at) {
            assert(hay.subrange(at, at + needle.len() as int) == needle);
        }
    }
}

/// The views of strings are those of each, in order.
pub proof fn law_views_one_by_one(list: Seq<String>, slices: Seq<&str>)
    ensures
        views(list).len() == list.len(),
        forall|i: int| 0 <= i < list.len() ==> #[trigger] views(list)[i] == list[i]@,
        slice_views(slices).len() == slices.len(),
        forall|i: int| 0 <= i < slices.len() ==> #[trigger] slice_views(slices)[i] == slices[i]@,
{
}

} // verus!
