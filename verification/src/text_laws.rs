//! What holds of texts, names and paths.

use crate::order::{bytes_less, comps_less};
use crate::path::{
    base_name, comps, dot_comp, dots_comp, joined, lemma_joined_comps, lemma_parent_comps, lemma_trim_tail_comps,
    parent_path, plain, root_comp, same_path, under,
};
use crate::text::{
    all_digits, begins_with, contains_seq, decimal, digits_value, finishes_with, lemma_split_nonempty,
    lines_of, lower, number_in, split_on, stem_len, trim_back, trim_front, trimmed, up_to,
    white_space,
};
use crate::tree::extension;
use vstd::prelude::*;

verus! {

/// A text begins, ends and is contained as its parts say.
pub proof fn law_parts<A>(s: Seq<A>, x: Seq<A>, a: Seq<A>, b: Seq<A>)
    ensures
        begins_with(s, x) <==> x.len() <= s.len() && s.take(x.len() as int) == x,
        finishes_with(s, x) <==> x.len() <= s.len() && s.skip(s.len() - x.len()) == x,
        contains_seq(a + x + b, x),
        contains_seq(s, x) ==> exists|p: Seq<A>, q: Seq<A>| s == #[trigger] (p + x + q),
{
    if x.len() <= s.len() {
        assert(s.subrange(0, x.len() as int) =~= s.take(x.len() as int));
        assert(s.subrange(s.len() - x.len(), s.len() as int) =~= s.skip(s.len() - x.len()));
    }
    let t = a + x + b;
    assert(t.subrange(a.len() as int, (a.len() + x.len()) as int) =~= x);
    assert(crate::text::stands_at(t, x, a.len() as int));
    if contains_seq(s, x) {
        let at = choose|at: int| crate::text::stands_at(s, x, at);
        let p = s.take(at);
        let q = s.skip(at + x.len());
        assert(s =~= p + x + q) by {
            assert forall|i: int| 0 <= i < s.len() implies s[i] == (p + x + q)[i] by {
                if at <= i < at + x.len() {
                    assert(s.subrange(at, at + x.len())[i - at] == x[i - at]);
                }
            }
        }
    }
}

/// What stands before a sign is the longest beginning without it.
pub proof fn law_up_to(s: Seq<char>, stop: char)
    ensures
        ({
            let r = up_to(s, stop);
            &&& r.len() <= s.len()
            &&& r == s.take(r.len() as int)
            &&& forall|i: int| 0 <= i < r.len() ==> (#[trigger] r[i]) != stop
            &&& r.len() < s.len() ==> s[r.len() as int] == stop
        }),
    decreases s.len(),
{
    if s.len() > 0 && s[0] != stop {
        law_up_to(s.drop_first(), stop);
        let r = up_to(s, stop);
        let t = up_to(s.drop_first(), stop);
        assert forall|i: int| 0 <= i < r.len() implies (#[trigger] r[i]) == s[i] && r[i] != stop by {
            if i > 0 {
                assert(r[i] == t[i - 1]);
                assert(t[i - 1] == s.drop_first().take(t.len() as int)[i - 1]);
            }
        }
        assert(r =~= s.take(r.len() as int));
    }
}

/// Pieces with a sign between them.
pub open spec fn put_together<A>(pieces: Seq<Seq<A>>, sep: A) -> Seq<A>
    decreases pieces.len(),
{
    if pieces.len() == 0 {
        Seq::empty()
    } else if pieces.len() == 1 {
        pieces[0]
    } else {
        put_together(pieces.drop_last(), sep).push(sep) + pieces.last()
    }
}

/// What is split at a sign gives the whole when put together with it, and no
/// piece holds it.
pub proof fn law_split<A>(s: Seq<A>, sep: A)
    ensures
        split_on(s, sep).len() > 0,
        put_together(split_on(s, sep), sep) == s,
        forall|i: int, j: int|
            0 <= i < split_on(s, sep).len() && 0 <= j < split_on(s, sep)[i].len()
                ==> #[trigger] split_on(s, sep)[i][j] != sep,
    decreases s.len(),
{
    lemma_split_nonempty(s, sep);
    let all = split_on(s, sep);
    if s.len() == 0 {
        assert(put_together(all, sep) =~= s);
    } else {
        let t = s.drop_last();
        law_split(t, sep);
        let before = split_on(t, sep);
        if s.last() == sep {
            assert(all.drop_last() =~= before);
            assert(put_together(all, sep) =~= s);
        } else {
            let last = before.last().push(s.last());
            assert(all.drop_last() =~= before.drop_last());
            assert(all.last() == last);
            assert(all.len() == before.len());
            assert(t.push(s.last()) =~= s);
            if before.len() == 1 {
                assert(all[0] == last);
                assert(put_together(before, sep) == before[0]);
                assert(before[0] == before.last());
                assert(put_together(all, sep) == last);
            } else {
                let head = put_together(before.drop_last(), sep).push(sep);
                assert(put_together(before, sep) == head + before.last());
                assert(put_together(all, sep) == head + last);
                assert(head + last =~= (head + before.last()).push(s.last()));
            }
            assert forall|i: int, j: int|
                0 <= i < all.len() && 0 <= j < all[i].len() implies #[trigger] all[i][j] != sep by {
                if i < all.len() - 1 {
                    assert(all[i] == before[i]);
                    assert(before[i][j] != sep);
                } else if j < before.last().len() {
                    assert(before[before.len() - 1][j] != sep);
                    assert(all[i][j] == before[before.len() - 1][j]);
                }
            }
        }
    }
}

/// White space is the blank and the controls from tab to carriage return, and
/// beyond ASCII next line, the no-break space, the spaces of typography, and the
/// separators of lines and paragraphs.
pub proof fn law_white_space(c: char)
    ensures
        c < '\u{80}' ==> (white_space(c) <==> c == ' ' || '\t' <= c <= '\r'),
        c >= '\u{80}' ==> (white_space(c) <==> seq![
            '\u{85}',
            '\u{a0}',
            '\u{1680}',
            '\u{2000}',
            '\u{2001}',
            '\u{2002}',
            '\u{2003}',
            '\u{2004}',
            '\u{2005}',
            '\u{2006}',
            '\u{2007}',
            '\u{2008}',
            '\u{2009}',
            '\u{200a}',
            '\u{2028}',
            '\u{2029}',
            '\u{202f}',
            '\u{205f}',
            '\u{3000}',
        ].contains(c)),
{
    let all = seq![
        '\u{85}',
        '\u{a0}',
        '\u{1680}',
        '\u{2000}',
        '\u{2001}',
        '\u{2002}',
        '\u{2003}',
        '\u{2004}',
        '\u{2005}',
        '\u{2006}',
        '\u{2007}',
        '\u{2008}',
        '\u{2009}',
        '\u{200a}',
        '\u{2028}',
        '\u{2029}',
        '\u{202f}',
        '\u{205f}',
        '\u{3000}',
    ];
    let u = c as u32;
    if c >= '\u{80}' && white_space(c) {
        let i: int = if u == 0x85 {
            0
        } else if u == 0xa0 {
            1
        } else if u == 0x1680 {
            2
        } else if 0x2000 <= u <= 0x200a {
            u - 0x2000 + 3
        } else if u == 0x2028 {
            14
        } else if u == 0x2029 {
            15
        } else if u == 0x202f {
            16
        } else if u == 0x205f {
            17
        } else {
            18
        };
        assert(all[i] == c);
    }
}

/// Whether `s` is white space up to `i`, then `t`, then white space from `j` on.
pub open spec fn white_around(s: Seq<char>, t: Seq<char>, i: int, j: int) -> bool {
    &&& 0 <= i <= j <= s.len()
    &&& t == s.subrange(i, j)
    &&& forall|k: int| 0 <= k < s.len() && !(i <= k < j) ==> white_space(#[trigger] s[k])
}

/// What is trimmed has lost white space at its two ends and nothing else, and has
/// none there.
pub proof fn law_trimmed(s: Seq<char>)
    ensures
        trimmed(s).len() > 0 ==> !white_space(trimmed(s)[0]) && !white_space(trimmed(s).last()),
        exists|i: int, j: int| white_around(s, trimmed(s), i, j),
{
    let f = trim_front(s);
    let t = trim_back(f);
    lemma_trim_front(s);
    lemma_trim_back(f);
    let i = s.len() - f.len();
    let j = i + t.len();
    assert(t =~= s.subrange(i, j));
    assert forall|k: int| 0 <= k < s.len() && !(i <= k < j) implies white_space(
        #[trigger] s[k],
    ) by {
        if k >= j {
            assert(f[k - i] == s[k]);
        }
    }
    assert(trimmed(s) == t);
    assert(white_around(s, trimmed(s), i, j));
    if t.len() > 0 {
        assert(t[0] == f[0]);
    }
}

proof fn lemma_trim_front(s: Seq<char>)
    ensures
        ({
            let t = trim_front(s);
            &&& t.len() <= s.len()
            &&& t == s.skip(s.len() - t.len())
            &&& t.len() > 0 ==> !white_space(t[0])
            &&& forall|i: int| 0 <= i < s.len() - t.len() ==> white_space(#[trigger] s[i])
        }),
    decreases s.len(),
{
    if s.len() > 0 && white_space(s[0]) {
        lemma_trim_front(s.drop_first());
        let t = trim_front(s);
        assert(t =~= s.skip(s.len() - t.len()));
        assert forall|i: int| 0 <= i < s.len() - t.len() implies white_space(#[trigger] s[i]) by {
            if i > 0 {
                assert(white_space(s.drop_first()[i - 1]));
            }
        }
    } else {
        assert(s =~= s.skip(0));
    }
}

proof fn lemma_trim_back(s: Seq<char>)
    ensures
        ({
            let t = trim_back(s);
            &&& t.len() <= s.len()
            &&& t == s.take(t.len() as int)
            &&& t.len() > 0 ==> !white_space(t.last())
            &&& forall|i: int| t.len() <= i < s.len() ==> white_space(#[trigger] s[i])
        }),
    decreases s.len(),
{
    if s.len() > 0 && white_space(s.last()) {
        lemma_trim_back(s.drop_last());
        let t = trim_back(s);
        assert(t =~= s.take(t.len() as int));
        assert forall|i: int| t.len() <= i < s.len() implies white_space(#[trigger] s[i]) by {
            if i < s.len() - 1 {
                assert(white_space(s.drop_last()[i]));
            }
        }
    } else {
        assert(s =~= s.take(s.len() as int));
    }
}

/// In lower case each of the letters from A to Z has its small form, and all else
/// stays.
pub proof fn law_lower(s: Seq<char>, i: int)
    requires
        0 <= i < s.len(),
    ensures
        lower(s).len() == s.len(),
        'A' <= s[i] <= 'Z' ==> lower(s)[i] as u32 == s[i] as u32 + 32,
        !('A' <= s[i] <= 'Z') ==> lower(s)[i] == s[i],
{
}

// ---------------------------------------------------------------------------
// Numbers
// ---------------------------------------------------------------------------

/// A number that was written down is read back.
pub proof fn law_number_round_trip(n: u64)
    ensures
        number_in(decimal(n as nat)) == Some(n),
{
    lemma_decimal(n as nat);
    let s = decimal(n as nat);
    assert('0' <= s[0] <= '9');
}

proof fn lemma_decimal(n: nat)
    ensures
        decimal(n).len() > 0,
        all_digits(decimal(n)),
        digits_value(decimal(n)) == n,
    decreases n,
{
    let s = decimal(n);
    if n < 10 {
        assert(s.drop_last() =~= Seq::<char>::empty());
        assert(digits_value(s.drop_last()) == 0);
    } else {
        lemma_decimal(n / 10);
        assert(s.drop_last() =~= decimal(n / 10));
    }
}

/// A text without a digit is no number, nor is one that holds anything but digits
/// behind a plus sign.
pub proof fn law_no_number(s: Seq<char>, i: int)
    requires
        0 <= i < s.len(),
        !('0' <= s[i] <= '9'),
        i == 0 ==> s[i] != '+' || s.len() == 1,
    ensures
        number_in(s) is None,
        number_in(Seq::empty()) is None,
{
    if s[0] == '+' {
        if i > 0 {
            assert(s.skip(1)[i - 1] == s[i]);
        }
    }
}

/// A digit behind a number makes it tenfold and adds the digit, as far as that is
/// a number; a plus sign in front of digits changes nothing.
pub proof fn law_number_grows(s: Seq<char>, c: char, n: u64)
    requires
        number_in(s) == Some(n),
        '0' <= c <= '9',
    ensures
        ({
            let next = n * 10 + (c as u32 - '0' as u32);
            &&& next <= u64::MAX ==> number_in(s.push(c)) == Some(next as u64)
            &&& next > u64::MAX ==> number_in(s.push(c)) is None
        }),
        s[0] != '+' ==> number_in(seq!['+'] + s) == Some(n),
        number_in(seq![c]) == Some((c as u32 - '0' as u32) as u64),
{
    let t = s.push(c);
    let signed = s[0] == '+';
    let digits = if signed {
        s.skip(1)
    } else {
        s
    };
    let more = if signed {
        t.skip(1)
    } else {
        t
    };
    assert(more =~= digits.push(c));
    assert(more.drop_last() =~= digits);
    assert((seq!['+'] + s).skip(1) =~= s);
    let one = seq![c];
    assert(one.drop_last() =~= Seq::<char>::empty());
    assert(digits_value(one.drop_last()) == 0);
}

// ---------------------------------------------------------------------------
// Lines
// ---------------------------------------------------------------------------

proof fn lemma_split_append(s: Seq<char>, t: Seq<char>, sep: char)
    requires
        forall|i: int| 0 <= i < t.len() ==> (#[trigger] t[i]) != sep,
    ensures
        ({
            let p = split_on(s, sep);
            split_on(s + t, sep) == p.drop_last().push(p.last() + t)
        }),
    decreases t.len(),
{
    lemma_split_nonempty(s, sep);
    let p = split_on(s, sep);
    if t.len() == 0 {
        assert(s + t =~= s);
        assert(p.last() + t =~= p.last());
        assert(p.drop_last().push(p.last()) =~= p);
    } else {
        let u = t.drop_last();
        assert forall|i: int| 0 <= i < u.len() implies (#[trigger] u[i]) != sep by {
            assert(t[i] != sep);
        }
        lemma_split_append(s, u, sep);
        assert((s + t).drop_last() =~= s + u);
        assert(t[t.len() - 1] != sep);
        let q = split_on(s + u, sep);
        assert(q.drop_last() =~= p.drop_last());
        assert(q.last() == p.last() + u);
        assert((p.last() + u).push(t.last()) =~= p.last() + t);
        assert(split_on(s + t, sep) =~= p.drop_last().push(p.last() + t));
    }
}

/// A line that is put behind whole lines is one more line; a carriage return
/// before its end is no part of it.
pub proof fn law_lines(s: Seq<char>, line: Seq<char>)
    requires
        s.len() == 0 || s.last() == '\n',
        forall|i: int| 0 <= i < line.len() ==> (#[trigger] line[i]) != '\n',
        line.len() > 0 ==> line.last() != '\r',
    ensures
        lines_of(s + line + seq!['\n']) == lines_of(s).push(line),
        lines_of(s + line + seq!['\r', '\n']) == lines_of(s).push(line),
        line.len() > 0 ==> lines_of(s + line) == lines_of(s).push(line),
        lines_of(Seq::empty()).len() == 0,
{
    lemma_one_line(s, line, line, seq!['\n']);
    let back = line.push('\r');
    assert forall|i: int| 0 <= i < back.len() implies (#[trigger] back[i]) != '\n' by {}
    assert(back.drop_last() =~= line);
    lemma_one_line(s, back, line, seq!['\n']);
    assert(s + line + seq!['\r', '\n'] =~= s + back + seq!['\n']);
    let p = split_on(s, '\n');
    lemma_split_nonempty(s, '\n');
    lemma_split_append(s, line, '\n');
    lemma_whole(s);
    if line.len() > 0 {
        let q = split_on(s + line, '\n');
        assert(q.last() =~= line);
        assert(q.drop_last() =~= p.drop_last());
        assert(lines_of(s + line) =~= lines_of(s).push(line));
    }
    assert(split_on(Seq::<char>::empty(), '\n').len() == 1);
    assert(lines_of(Seq::empty()) =~= Seq::<Seq<char>>::empty());
}

proof fn lemma_whole(s: Seq<char>)
    requires
        s.len() == 0 || s.last() == '\n',
    ensures
        split_on(s, '\n').last().len() == 0,
{
}

proof fn lemma_one_line(s: Seq<char>, raw: Seq<char>, line: Seq<char>, end: Seq<char>)
    requires
        s.len() == 0 || s.last() == '\n',
        end == seq!['\n'],
        forall|i: int| 0 <= i < raw.len() ==> (#[trigger] raw[i]) != '\n',
        crate::text::without_return(raw) == line,
    ensures
        lines_of(s + raw + end) == lines_of(s).push(line),
{
    lemma_split_nonempty(s, '\n');
    lemma_split_append(s, raw, '\n');
    lemma_whole(s);
    let p = split_on(s, '\n');
    let t = s + raw + end;
    assert(t.drop_last() =~= s + raw);
    assert(t.last() == '\n');
    let q = split_on(s + raw, '\n');
    assert(q.last() =~= raw);
    let all = split_on(t, '\n');
    assert(all == q.push(Seq::empty()));
    assert(lines_of(t) =~= lines_of(s).push(line));
}

// ---------------------------------------------------------------------------
// Extensions
// ---------------------------------------------------------------------------

proof fn lemma_stem<A>(a: Seq<A>, sep: A, b: Seq<A>)
    requires
        forall|i: int| 0 <= i < b.len() ==> (#[trigger] b[i]) != sep,
    ensures
        stem_len(a.push(sep) + b, sep) == a.len() + 1,
    decreases b.len(),
{
    let s = a.push(sep) + b;
    if b.len() == 0 {
        assert(s =~= a.push(sep));
        assert(s.last() == sep);
    } else {
        let c = b.drop_last();
        assert forall|i: int| 0 <= i < c.len() implies (#[trigger] c[i]) != sep by {
            assert(b[i] != sep);
        }
        assert(b[b.len() - 1] != sep);
        lemma_stem(a, sep, c);
        assert(s.drop_last() =~= a.push(sep) + c);
    }
}

proof fn lemma_no_stem<A>(s: Seq<A>, sep: A)
    requires
        forall|i: int| 0 <= i < s.len() ==> (#[trigger] s[i]) != sep,
    ensures
        stem_len(s, sep) == 0,
    decreases s.len(),
{
    if s.len() > 0 {
        assert(s[s.len() - 1] != sep);
        let t = s.drop_last();
        assert forall|i: int| 0 <= i < t.len() implies (#[trigger] t[i]) != sep by {
            assert(s[i] != sep);
        }
        lemma_no_stem(t, sep);
    }
}

proof fn lemma_one_piece(s: Seq<char>)
    requires
        forall|i: int| 0 <= i < s.len() ==> (#[trigger] s[i]) != '/',
        s.len() > 0,
        s != seq!['.'],
        s != seq!['.', '.'],
    ensures
        crate::tree::name_piece(s) == Some(s),
{
    let none = Seq::<char>::empty();
    lemma_split_append(none, s, '/');
    assert(none + s =~= s);
    let p = split_on(none, '/');
    assert(p.last() + s =~= s);
    assert(p.drop_last() =~= Seq::<Seq<char>>::empty());
    assert(split_on(s, '/') =~= seq![s]);
}

/// The extension of a name is what stands behind its last dot, in lower case. A
/// name without a dot has none, nor has one whose only dot comes first.
pub proof fn law_extension(stem: Seq<char>, ext: Seq<char>)
    requires
        forall|i: int| 0 <= i < stem.len() ==> (#[trigger] stem[i]) != '/',
        forall|i: int| 0 <= i < ext.len() ==> (#[trigger] ext[i]) != '/' && ext[i] != '.',
        stem.len() > 0,
        ext.len() > 0,
    ensures
        extension(stem.push('.') + ext) == lower(ext),
        extension(ext).len() == 0,
        extension(seq!['.'] + ext).len() == 0,
{
    let name = stem.push('.') + ext;
    assert forall|i: int| 0 <= i < name.len() implies (#[trigger] name[i]) != '/' by {
        if i < stem.len() {
            assert(stem[i] != '/');
        } else if i > stem.len() {
            assert(ext[i - stem.len() - 1] != '/');
        }
    }
    assert(name.last() == ext[ext.len() - 1]);
    assert(ext[ext.len() - 1] != '.');
    assert(name != seq!['.'] && name != seq!['.', '.']);
    lemma_one_piece(name);
    lemma_stem(stem, '.', ext);
    assert(name.skip((stem.len() + 1) as int) =~= ext);
    assert(ext.last() == ext[ext.len() - 1]);
    assert(ext != seq!['.'] && ext != seq!['.', '.']) by {
        assert(seq!['.'].last() == '.');
        assert(seq!['.', '.'].last() == '.');
    }
    assert forall|i: int| 0 <= i < ext.len() implies (#[trigger] ext[i]) != '/' by {}
    lemma_one_piece(ext);
    lemma_no_stem(ext, '.');
    let hidden = seq!['.'] + ext;
    assert forall|i: int| 0 <= i < hidden.len() implies (#[trigger] hidden[i]) != '/' by {
        if i > 0 {
            assert(ext[i - 1] != '/');
        }
    }
    assert(hidden.last() == ext[ext.len() - 1]);
    assert(hidden != seq!['.'] && hidden != seq!['.', '.']);
    lemma_one_piece(hidden);
    let none = Seq::<char>::empty();
    lemma_stem(none, '.', ext);
    assert(none.push('.') + ext =~= hidden);
}

// ---------------------------------------------------------------------------
// Paths
// ---------------------------------------------------------------------------

/// The components of a path are those of the directory with the name behind them;
/// the root has one and the empty path none. A path lies below another where it
/// begins with its components, and is the same where it has no others.
pub proof fn law_components(p: Seq<u8>, q: Seq<u8>, name: Seq<u8>)
    requires
        plain(name),
    ensures
        comps(Seq::empty()).len() == 0,
        comps(seq![47u8]) == seq![seq![47u8]],
        comps(joined(p, name)) == comps(p).push(name),
        under(joined(p, name), p),
        !under(p, joined(p, name)),
        under(p, q) <==> comps(q).len() <= comps(p).len() && comps(p).take(
            comps(q).len() as int,
        ) == comps(q),
        same_path(p, q) <==> comps(p) == comps(q),
        under(p, q) && under(q, p) ==> same_path(p, q),
        p.len() > 0 ==> comps(p.push(47u8)) == comps(p) && comps(p.push(47u8).push(46u8)) == comps(
            p,
        ),
{
    let none = Seq::<u8>::empty();
    if p.len() > 0 {
        let a = p.push(47u8);
        let b = a.push(46u8);
        lemma_trim_tail_comps(p);
        lemma_trim_tail_comps(a);
        lemma_trim_tail_comps(b);
        assert(a.drop_last() =~= p);
        assert(b.drop_last() =~= a);
        assert(crate::path::trim_tail(a) == crate::path::trim_tail(p));
        assert(crate::path::trim_tail(b) == crate::path::trim_tail(a));
    }
    assert(split_on(none, 47u8) =~= seq![none]);
    assert(crate::path::kept(seq![none]) =~= Seq::<Seq<u8>>::empty()) by {
        assert(seq![none].drop_last() =~= Seq::<Seq<u8>>::empty());
        assert(crate::path::kept(seq![none].drop_last()) =~= Seq::<Seq<u8>>::empty());
    }
    assert(comps(none) =~= Seq::<Seq<u8>>::empty());
    let root = seq![47u8];
    assert(root.drop_last() =~= none);
    assert(split_on(root, 47u8) =~= seq![none, none]);
    assert(crate::path::kept(seq![none, none]) =~= Seq::<Seq<u8>>::empty()) by {
        assert(seq![none, none].drop_last() =~= seq![none]);
    }
    assert(comps(root) =~= seq![seq![47u8]]);
    lemma_joined_comps(p, name);
    let cs = comps(p).push(name);
    assert(cs.take(comps(p).len() as int) =~= comps(p));
    if under(p, q) && under(q, p) {
        assert(comps(p) =~= comps(q));
    }
}

/// The name of a path is its last component, where that is a name; its directory
/// has all components but that.
pub proof fn law_names(p: Seq<u8>)
    ensures
        ({
            let cs = comps(p);
            let named = cs.len() > 0 && cs.last() != root_comp() && cs.last() != dot_comp()
                && cs.last() != dots_comp();
            &&& named ==> base_name(p) == Some(cs.last())
            &&& !named ==> base_name(p) is None
            &&& parent_path(p) is Some <==> cs.len() > 0 && cs.last() != root_comp()
            &&& parent_path(p) matches Some(q) ==> comps(q) == cs.drop_last()
        }),
{
    lemma_parent_comps(p);
}

// ---------------------------------------------------------------------------
// Orders
// ---------------------------------------------------------------------------

/// Whether the two agree up to `k`.
pub open spec fn agree_to<A>(a: Seq<A>, b: Seq<A>, k: int) -> bool {
    &&& 0 <= k <= a.len()
    &&& k <= b.len()
    &&& a.take(k) == b.take(k)
}

/// The first place where two byte strings differ decides which comes first: the
/// lesser byte, or that one has ended.
pub proof fn law_bytes_less(a: Seq<u8>, b: Seq<u8>, k: int)
    requires
        agree_to(a, b, k),
    ensures
        k < a.len() && k < b.len() && a[k] < b[k] ==> bytes_less(a, b) && !bytes_less(b, a),
        k == a.len() && k < b.len() ==> bytes_less(a, b) && !bytes_less(b, a),
        k == a.len() && k == b.len() ==> !bytes_less(a, b),
    decreases k,
{
    if k > 0 {
        let x = a.drop_first();
        let y = b.drop_first();
        assert(a.take(k)[0] == b.take(k)[0]);
        assert forall|i: int| 0 <= i < k - 1 implies #[trigger] x.take(k - 1)[i]
            == y.take(k - 1)[i] by {
            assert(a.take(k)[i + 1] == b.take(k)[i + 1]);
        }
        assert(x.take(k - 1) =~= y.take(k - 1));
        law_bytes_less(x, y, k - 1);
        if k < a.len() {
            assert(x[k - 1] == a[k]);
        }
        if k < b.len() {
            assert(y[k - 1] == b[k]);
        }
    }
}

/// The first component in which two paths differ decides which comes first: the
/// root before the current directory, that before the parent, that before names,
/// names by their bytes; or the path that has ended.
pub proof fn law_comps_less(a: Seq<Seq<u8>>, b: Seq<Seq<u8>>, k: int)
    requires
        agree_to(a, b, k),
    ensures
        k == a.len() && k < b.len() ==> comps_less(a, b) && !comps_less(b, a),
        k == a.len() && k == b.len() ==> !comps_less(a, b),
        k < a.len() && k < b.len() && a[k] != b[k] ==> {
            let x = a[k];
            let y = b[k];
            &&& x == seq![47u8] ==> comps_less(a, b)
            &&& y == seq![47u8] ==> !comps_less(a, b)
            &&& x == seq![46u8] && y != seq![47u8] ==> comps_less(a, b)
            &&& y == seq![46u8] && x != seq![47u8] ==> !comps_less(a, b)
            &&& x == seq![46u8, 46u8] && y != seq![47u8] && y != seq![46u8] ==> comps_less(a, b)
            &&& y == seq![46u8, 46u8] && x != seq![47u8] && x != seq![46u8] ==> !comps_less(a, b)
            &&& x != seq![47u8] && x != seq![46u8] && x != seq![46u8, 46u8] && y != seq![47u8] && y
                != seq![46u8] && y != seq![46u8, 46u8] ==> (comps_less(a, b) <==> bytes_less(x, y))
        },
    decreases k,
{
    assert(seq![47u8].len() == 1 && seq![46u8].len() == 1 && seq![46u8, 46u8].len() == 2);
    assert(seq![47u8][0] == 47u8 && seq![46u8][0] == 46u8);
    assert(root_comp() =~= seq![47u8]);
    assert(dot_comp() =~= seq![46u8]);
    assert(dots_comp() =~= seq![46u8, 46u8]);
    if k > 0 {
        let x = a.drop_first();
        let y = b.drop_first();
        assert(a.take(k)[0] == b.take(k)[0]);
        assert forall|i: int| 0 <= i < k - 1 implies #[trigger] x.take(k - 1)[i]
            == y.take(k - 1)[i] by {
            assert(a.take(k)[i + 1] == b.take(k)[i + 1]);
        }
        assert(x.take(k - 1) =~= y.take(k - 1));
        law_comps_less(x, y, k - 1);
        crate::order::lemma_bytes_order(a[0], b[0]);
        if k < a.len() {
            assert(x[k - 1] == a[k]);
        }
        if k < b.len() {
            assert(y[k - 1] == b[k]);
        }
    }
}

} // verus!
