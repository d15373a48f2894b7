//! Text helpers: characters, UTF-8 bytes, ASCII case, trimming and decimals.

use crate::sort::views;
use vstd::prelude::*;
use vstd::string::*;
use vstd::utf8::*;

verus! {

/// `String::push` appends one character to the end of the string.
pub assume_specification[ String::push ](s: &mut String, c: char)
    ensures
        final(s)@ == old(s)@.push(c),
;

/// The characters of `s`, in order.
pub fn chars_of(s: &str) -> (r: Vec<char>)
    ensures
        r@ == s@,
{
    let mut out: Vec<char> = Vec::new();
    for c in it: s.chars()
        invariant
            out@ == it.seq().take(it.index()),
            it.seq() == s@,
    {
        out.push(c);
    }
    out
}

/// The string made of the characters `chars[from..to]`.
pub fn string_of(chars: &Vec<char>, from: usize, to: usize) -> (r: String)
    requires
        from <= to <= chars.len(),
    ensures
        r@ == chars@.subrange(from as int, to as int),
{
    let mut out = String::new();
    let mut i: usize = from;
    while i < to
        invariant
            from <= i <= to <= chars.len(),
            out@ == chars@.subrange(from as int, i as int),
        decreases to - i,
    {
        out.push(chars[i]);
        i = i + 1;
    }
    out
}

/// Two texts with the same UTF-8 encoding are the same text.
pub proof fn lemma_utf8_injective(a: Seq<char>, b: Seq<char>)
    requires
        encode_utf8(a) == encode_utf8(b),
    ensures
        a == b,
{
    encode_utf8_decode_utf8(a);
    encode_utf8_decode_utf8(b);
}

/// Whether two byte strings are equal.
pub fn bytes_eq(a: &[u8], b: &[u8]) -> (r: bool)
    ensures
        r == (a@ == b@),
{
    if a.len() != b.len() {
        return false;
    }
    let mut i: usize = 0;
    while i < a.len()
        invariant
            i <= a.len() == b.len(),
            a@.take(i as int) == b@.take(i as int),
        decreases a.len() - i,
    {
        if a[i] != b[i] {
            assert(a@[i as int] != b@[i as int]);
            return false;
        }
        proof {
            a@.lemma_take_succ_push(i as int);
            b@.lemma_take_succ_push(i as int);
        }
        i = i + 1;
    }
    assert(a@.take(a@.len() as int) == a@);
    assert(b@.take(b@.len() as int) == b@);
    true
}

/// Whether two texts are equal.
pub fn text_eq(a: &str, b: &str) -> (r: bool)
    ensures
        r == (a@ == b@),
{
    let r = bytes_eq(a.as_bytes(), b.as_bytes());
    proof {
        if r {
            lemma_utf8_injective(a@, b@);
        }
    }
    r
}


/// Whether `needle` stands in `s` at position `at`.
pub open spec fn stands_at<A>(s: Seq<A>, needle: Seq<A>, at: int) -> bool {
    &&& 0 <= at
    &&& at + needle.len() <= s.len()
    &&& s.subrange(at, at + needle.len()) == needle
}

/// Whether `needle` stands anywhere in `s`.
pub open spec fn contains_seq<A>(s: Seq<A>, needle: Seq<A>) -> bool {
    exists|at: int| stands_at(s, needle, at)
}

/// Whether `s` begins with `prefix`.
pub open spec fn begins_with<A>(s: Seq<A>, prefix: Seq<A>) -> bool {
    stands_at(s, prefix, 0)
}

/// Whether `s` ends with `suffix`.
pub open spec fn finishes_with<A>(s: Seq<A>, suffix: Seq<A>) -> bool {
    stands_at(s, suffix, s.len() - suffix.len())
}

/// Whether `needle` stands in `s` at position `at`.
pub fn chars_stand_at(s: &Vec<char>, needle: &Vec<char>, at: usize) -> (r: bool)
    ensures
        r == stands_at(s@, needle@, at as int),
{
    if at > s.len() || needle.len() > s.len() - at {
        return false;
    }
    let mut i: usize = 0;
    while i < needle.len()
        invariant
            i <= needle.len(),
            at + needle.len() <= s.len(),
            s@.subrange(at as int, at + i) == needle@.take(i as int),
        decreases needle.len() - i,
    {
        if s[at + i] != needle[i] {
            assert(s@.subrange(at as int, at + needle.len())[i as int] != needle@[i as int]);
            return false;
        }
        proof {
            needle@.lemma_take_succ_push(i as int);
            assert(s@.subrange(at as int, at + i + 1) == s@.subrange(at as int, at + i).push(s@[at + i]));
        }
        i = i + 1;
    }
    assert(needle@.take(needle@.len() as int) == needle@);
    true
}

/// Whether the text contains `needle`.
pub fn contains_text(s: &str, needle: &str) -> (r: bool)
    ensures
        r == contains_seq(s@, needle@),
{
    let cs = chars_of(s);
    let ns = chars_of(needle);
    let mut at: usize = 0;
    while at <= cs.len() && ns.len() <= cs.len() - at
        invariant
            cs@ == s@,
            ns@ == needle@,
            at <= cs.len() + 1,
            forall|k: int| 0 <= k < at ==> !stands_at(s@, needle@, k),
        decreases cs.len() + 1 - at,
    {
        if chars_stand_at(&cs, &ns, at) {
            return true;
        }
        if at == cs.len() {
            return false;
        }
        at = at + 1;
    }
    false
}

/// Whether the text begins with `prefix`.
pub fn text_begins_with(s: &str, prefix: &str) -> (r: bool)
    ensures
        r == begins_with(s@, prefix@),
{
    let cs = chars_of(s);
    let ps = chars_of(prefix);
    chars_stand_at(&cs, &ps, 0)
}

/// Whether the text ends with `suffix`.
pub fn text_finishes_with(s: &str, suffix: &str) -> (r: bool)
    ensures
        r == finishes_with(s@, suffix@),
{
    let cs = chars_of(s);
    let xs = chars_of(suffix);
    if xs.len() > cs.len() {
        return false;
    }
    chars_stand_at(&cs, &xs, cs.len() - xs.len())
}

/// The ASCII lower-case form of a character; other characters are kept.
pub open spec fn lower_char(c: char) -> char {
    if 'A' <= c <= 'Z' {
        ((c as u32) + 32) as char
    } else {
        c
    }
}

/// The text with its ASCII letters in lower case.
pub open spec fn lower(s: Seq<char>) -> Seq<char> {
    Seq::new(s.len(), |i: int| lower_char(s[i]))
}

/// The ASCII lower-case form of a character.
pub fn to_lower_char(c: char) -> (r: char)
    ensures
        r == lower_char(c),
{
    if 'A' <= c && c <= 'Z' {
        ((c as u8) + 32) as char
    } else {
        c
    }
}

/// The text with its ASCII letters in lower case.
pub fn to_lower(s: &str) -> (r: String)
    ensures
        r@ == lower(s@),
{
    let cs = chars_of(s);
    let mut out = String::new();
    let mut i: usize = 0;
    while i < cs.len()
        invariant
            cs@ == s@,
            i <= cs.len(),
            out@ == lower(s@).take(i as int),
        decreases cs.len() - i,
    {
        proof {
            lower(s@).lemma_take_succ_push(i as int);
        }
        out.push(to_lower_char(cs[i]));
        i = i + 1;
    }
    assert(lower(s@).take(s@.len() as int) == lower(s@));
    out
}

/// Whether the character has the Unicode property White_Space.
pub open spec fn white_space(c: char) -> bool {
    let u = c as u32;
    ||| 0x09 <= u <= 0x0d
    ||| u == 0x20
    ||| u == 0x85
    ||| u == 0xa0
    ||| u == 0x1680
    ||| 0x2000 <= u <= 0x200a
    ||| u == 0x2028
    ||| u == 0x2029
    ||| u == 0x202f
    ||| u == 0x205f
    ||| u == 0x3000
}

/// Whether the character has the Unicode property White_Space.
pub fn is_white_space(c: char) -> (r: bool)
    ensures
        r == white_space(c),
{
    let u: u32 = c as u32;
    (0x09 <= u && u <= 0x0d) || u == 0x20 || u == 0x85 || u == 0xa0 || u == 0x1680 || (0x2000 <= u
        && u <= 0x200a) || u == 0x2028 || u == 0x2029 || u == 0x202f || u == 0x205f || u == 0x3000
}

/// The text without its leading white space.
pub open spec fn trim_front(s: Seq<char>) -> Seq<char>
    decreases s.len(),
{
    if s.len() > 0 && white_space(s[0]) {
        trim_front(s.drop_first())
    } else {
        s
    }
}

/// The text without its trailing white space.
pub open spec fn trim_back(s: Seq<char>) -> Seq<char>
    decreases s.len(),
{
    if s.len() > 0 && white_space(s.last()) {
        trim_back(s.drop_last())
    } else {
        s
    }
}

/// The text without the white space at its two ends.
pub open spec fn trimmed(s: Seq<char>) -> Seq<char> {
    trim_back(trim_front(s))
}

/// The text without its trailing white space.
pub fn trim_end(s: &str) -> (r: String)
    ensures
        r@ == trim_back(s@),
{
    let cs = chars_of(s);
    let mut to: usize = cs.len();
    assert(cs@.take(to as int) == cs@);
    while to > 0 && is_white_space(cs[to - 1])
        invariant
            cs@ == s@,
            to <= cs.len(),
            trim_back(cs@.take(to as int)) == trim_back(s@),
        decreases to,
    {
        assert(cs@.take(to as int).drop_last() == cs@.take(to - 1));
        to = to - 1;
    }
    assert(cs@.subrange(0, to as int) == cs@.take(to as int));
    string_of(&cs, 0, to)
}

/// The text without the white space at its two ends.
pub fn trim(s: &str) -> (r: String)
    ensures
        r@ == trimmed(s@),
{
    let cs = chars_of(s);
    let mut from: usize = 0;
    assert(cs@.skip(0) == cs@);
    while from < cs.len() && is_white_space(cs[from])
        invariant
            cs@ == s@,
            from <= cs.len(),
            trim_front(cs@.skip(from as int)) == trim_front(s@),
        decreases cs.len() - from,
    {
        assert(cs@.skip(from as int).drop_first() == cs@.skip(from + 1));
        from = from + 1;
    }
    assert(cs@.subrange(from as int, cs@.len() as int) == cs@.skip(from as int));
    let rest = string_of(&cs, from, cs.len());
    trim_end(rest.as_str())
}

/// The character of a decimal digit.
pub open spec fn digit_char(d: nat) -> char {
    ((48 + d) as u32) as char
}

/// The decimal numeral of `n`.
pub open spec fn decimal(n: nat) -> Seq<char>
    decreases n,
{
    if n < 10 {
        seq![digit_char(n)]
    } else {
        decimal(n / 10).push(digit_char(n % 10))
    }
}

/// The decimal numeral of `n`.
pub fn to_decimal(n: u64) -> (r: String)
    ensures
        r@ == decimal(n as nat),
    decreases n,
{
    let mut out = if n < 10 {
        String::new()
    } else {
        to_decimal(n / 10)
    };
    let d: u8 = (n % 10) as u8;
    out.push((48 + d) as char);
    out
}

/// The pieces of `s` between the occurrences of `sep`.
pub open spec fn split_on<A>(s: Seq<A>, sep: A) -> Seq<Seq<A>>
    decreases s.len(),
{
    if s.len() == 0 {
        seq![Seq::<A>::empty()]
    } else {
        let before = split_on(s.drop_last(), sep);
        if s.last() == sep {
            before.push(Seq::<A>::empty())
        } else {
            before.drop_last().push(before.last().push(s.last()))
        }
    }
}

/// There is always at least one piece.
pub proof fn lemma_split_nonempty<A>(s: Seq<A>, sep: A)
    ensures
        split_on(s, sep).len() >= 1,
    decreases s.len(),
{
    if s.len() > 0 {
        lemma_split_nonempty(s.drop_last(), sep);
    }
}

/// The pieces of the text between the occurrences of `sep`.
pub fn split_chars(s: &Vec<char>, sep: char) -> (r: Vec<Vec<char>>)
    ensures
        views(r@) == split_on(s@, sep),
        r@.len() > 0,
{
    let mut out: Vec<Vec<char>> = Vec::new();
    let mut cur: Vec<char> = Vec::new();
    let mut i: usize = 0;
    assert(s@.take(0) == Seq::<char>::empty());
    assert(views(out@).push(cur@) == split_on(s@.take(0), sep));
    while i < s.len()
        invariant
            i <= s.len(),
            views(out@).push(cur@) == split_on(s@.take(i as int), sep),
        decreases s.len() - i,
    {
        let c = s[i];
        assert(s@.take(i + 1).drop_last() == s@.take(i as int));
        let ghost pieces = views(out@);
        if c == sep {
            let ghost last = cur@;
            out.push(cur);
            cur = Vec::new();
            assert(views(out@) == pieces.push(last));
        } else {
            assert(pieces.push(cur@).drop_last() == pieces);
            cur.push(c);
        }
        i = i + 1;
    }
    assert(s@.take(s@.len() as int) == s@);
    let ghost pieces = views(out@);
    let ghost last = cur@;
    out.push(cur);
    assert(views(out@) == pieces.push(last));
    out
}

/// The number of items up to and with the last `sep`.
pub open spec fn stem_len<A>(s: Seq<A>, sep: A) -> nat
    decreases s.len(),
{
    if s.len() == 0 {
        0
    } else if s.last() == sep {
        s.len()
    } else {
        stem_len(s.drop_last(), sep)
    }
}

/// What stands before the first `stop`; all of `s` if there is none.
pub open spec fn up_to(s: Seq<char>, stop: char) -> Seq<char>
    decreases s.len(),
{
    if s.len() == 0 || s[0] == stop {
        Seq::empty()
    } else {
        seq![s[0]] + up_to(s.drop_first(), stop)
    }
}

/// What stands before the first `stop`.
pub fn text_up_to(s: &str, stop: char) -> (r: String)
    ensures
        r@ == up_to(s@, stop),
{
    let cs = chars_of(s);
    let mut out = String::new();
    let mut i: usize = 0;
    assert(cs@.skip(0) =~= cs@);
    assert(out@ + up_to(cs@, stop) =~= up_to(cs@, stop));
    while i < cs.len() && cs[i] != stop
        invariant
            cs@ == s@,
            i <= cs.len(),
            up_to(s@, stop) == out@ + up_to(cs@.skip(i as int), stop),
        decreases cs.len() - i,
    {
        let ghost before = out@;
        assert(cs@.skip(i as int)[0] == cs@[i as int]);
        assert(cs@.skip(i as int).drop_first() =~= cs@.skip(i + 1));
        out.push(cs[i]);
        assert(before + (seq![cs@[i as int]] + up_to(cs@.skip(i + 1), stop)) =~= out@ + up_to(
            cs@.skip(i + 1),
            stop,
        ));
        i = i + 1;
    }
    assert(up_to(cs@.skip(i as int), stop) =~= Seq::<char>::empty());
    assert(out@ + Seq::<char>::empty() =~= out@);
    out
}

/// Whether each character is a decimal digit.
pub open spec fn all_digits(s: Seq<char>) -> bool {
    forall|i: int| 0 <= i < s.len() ==> '0' <= #[trigger] s[i] <= '9'
}

/// The number that a row of decimal digits stands for.
pub open spec fn digits_value(s: Seq<char>) -> nat
    decreases s.len(),
{
    if s.len() == 0 {
        0
    } else {
        digits_value(s.drop_last()) * 10 + (s.last() as u32 - 48) as nat
    }
}

/// The number that a text stands for: decimal digits, at least one, with an
/// optional plus sign in front; none if it is anything else or too large.
pub open spec fn number_in(s: Seq<char>) -> Option<u64> {
    let digits = if s.len() > 0 && s[0] == '+' {
        s.skip(1)
    } else {
        s
    };
    if digits.len() > 0 && all_digits(digits) && digits_value(digits) <= u64::MAX {
        Some(digits_value(digits) as u64)
    } else {
        None
    }
}

proof fn lemma_digits_grow(s: Seq<char>, n: int)
    requires
        0 <= n <= s.len(),
        all_digits(s),
    ensures
        digits_value(s.take(n)) <= digits_value(s),
    decreases s.len() - n,
{
    if n < s.len() {
        assert(s.take(n + 1).drop_last() =~= s.take(n));
        lemma_digits_grow(s, n + 1);
    } else {
        assert(s.take(n) =~= s);
    }
}

/// The number that a text stands for.
pub fn parse_number(s: &str) -> (r: Option<u64>)
    ensures
        r == number_in(s@),
{
    let cs = chars_of(s);
    let from: usize = if cs.len() > 0 && cs[0] == '+' {
        1
    } else {
        0
    };
    let ghost digits = cs@.skip(from as int);
    assert(cs@.skip(0) =~= cs@);
    if from == cs.len() {
        return None;
    }
    let mut value: u64 = 0;
    let mut i: usize = from;
    assert(digits.take(0) =~= Seq::<char>::empty());
    while i < cs.len()
        invariant
            from <= i <= cs.len(),
            from < cs.len(),
            digits == cs@.skip(from as int),
            cs@ == s@,
            number_in(s@) == if digits.len() > 0 && all_digits(digits) && digits_value(digits)
                <= u64::MAX {
                Some(digits_value(digits) as u64)
            } else {
                None::<u64>
            },
            all_digits(digits.take(i - from)),
            value == digits_value(digits.take(i - from)),
        decreases cs.len() - i,
    {
        let c = cs[i];
        assert(digits[i - from] == c);
        assert(digits.take(i - from + 1).drop_last() =~= digits.take(i - from));
        if !('0' <= c && c <= '9') {
            return None;
        }
        let d: u64 = (c as u8 - 48) as u64;
        assert(digits_value(digits.take(i - from + 1)) == value * 10 + d);
        proof {
            if all_digits(digits) {
                lemma_digits_grow(digits, i - from + 1);
            }
        }
        if value > (u64::MAX - d) / 10 {
            return None;
        }
        value = value * 10 + d;
        i = i + 1;
    }
    assert(digits.take(digits.len() as int) =~= digits);
    Some(value)
}

/// The first place from `k` on where `needle` stands in `s`.
pub open spec fn first_from<A>(s: Seq<A>, needle: Seq<A>, k: int) -> Option<int>
    decreases s.len() + 1 - k,
{
    if k > s.len() {
        None
    } else if stands_at(s, needle, k) {
        Some(k)
    } else {
        first_from(s, needle, k + 1)
    }
}

/// The first place where `needle` stands in `s`.
pub fn find_chars(s: &Vec<char>, needle: &Vec<char>) -> (r: Option<usize>)
    ensures
        match r {
            Some(k) => first_from(s@, needle@, 0) == Some(k as int) && k + needle@.len() <= s@.len(),
            None => first_from(s@, needle@, 0) is None,
        },
{
    let mut k: usize = 0;
    while k < s.len()
        invariant
            k <= s.len(),
            first_from(s@, needle@, 0) == first_from(s@, needle@, k as int),
        decreases s.len() - k,
    {
        if chars_stand_at(s, needle, k) {
            return Some(k);
        }
        k = k + 1;
    }
    if chars_stand_at(s, needle, k) {
        Some(k)
    } else {
        assert(first_from(s@, needle@, k + 1) is None);
        None
    }
}

/// The lines of a text: what line feeds end, without a carriage return before
/// them; what follows the last one is a line unless it is empty.
pub open spec fn lines_of(s: Seq<char>) -> Seq<Seq<char>> {
    let pieces = split_on(s, '\n');
    let ended = Seq::new((pieces.len() - 1) as nat, |i: int| without_return(pieces[i]));
    if pieces.last().len() > 0 {
        ended.push(pieces.last())
    } else {
        ended
    }
}

/// The line without a carriage return at its end.
pub open spec fn without_return(line: Seq<char>) -> Seq<char> {
    if line.len() > 0 && line.last() == '\r' {
        line.drop_last()
    } else {
        line
    }
}

/// The lines of a text.
pub fn split_lines(s: &str) -> (r: Vec<Vec<char>>)
    ensures
        views(r@) == lines_of(s@),
{
    let cs = chars_of(s);
    let pieces = split_chars(&cs, '\n');
    let ghost all = views(pieces@);
    let n: usize = pieces.len() - 1;
    let ghost ended = Seq::new(n as nat, |i: int| without_return(all[i]));
    let mut out: Vec<Vec<char>> = Vec::new();
    let mut i: usize = 0;
    assert(views(out@) =~= ended.take(0));
    while i < n
        invariant
            i <= n,
            n == pieces@.len() - 1,
            all == views(pieces@),
            ended == Seq::new(n as nat, |i: int| without_return(all[i])),
            views(out@) == ended.take(i as int),
        decreases n - i,
    {
        let mut line = pieces[i].clone();
        assert(all[i as int] == line@);
        let len: usize = line.len();
        if len > 0 && line[len - 1] == '\r' {
            line.truncate(len - 1);
            assert(line@ =~= all[i as int].drop_last());
        }
        assert(line@ == ended[i as int]);
        let ghost before = views(out@);
        let ghost model = line@;
        out.push(line);
        assert(views(out@) =~= before.push(model));
        assert(ended.take(i + 1) =~= ended.take(i as int).push(ended[i as int]));
        i = i + 1;
    }
    assert(ended.take(n as int) =~= ended);
    assert(all.last() == pieces@[n as int]@);
    if pieces[n].len() > 0 {
        let last = pieces[n].clone();
        let ghost before = views(out@);
        let ghost model = last@;
        out.push(last);
        assert(views(out@) =~= before.push(model));
    }
    out
}

} // verus!
