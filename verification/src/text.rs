//! Character-level text handling shared by the rest of the library: splitting
//! log lines and fields, normalising user input, rendering numbers.
use vstd::prelude::*;

verus! {

// ---------------------------------------------------------------------------
// Specifications
// ---------------------------------------------------------------------------

/// The pieces of `s` between occurrences of `sep`, in the way `str::split`
/// yields them: there is always one more piece than there are separators.
pub open spec fn split_on(s: Seq<char>, sep: char) -> Seq<Seq<char>>
    decreases s.len(),
{
    if s.len() == 0 {
        seq![Seq::<char>::empty()]
    } else {
        let init = split_on(s.drop_last(), sep);
        if s.last() == sep {
            init.push(Seq::<char>::empty())
        } else {
            init.update(init.len() - 1, init.last().push(s.last()))
        }
    }
}

/// `parts` glued together with `sep` between neighbours (`[..].join(sep)`).
pub open spec fn join_with(parts: Seq<Seq<char>>, sep: Seq<char>) -> Seq<char>
    decreases parts.len(),
{
    if parts.len() == 0 {
        Seq::<char>::empty()
    } else if parts.len() == 1 {
        parts[0]
    } else {
        join_with(parts.drop_last(), sep) + sep + parts.last()
    }
}

/// A piece that was followed by a line feed loses one trailing carriage return.
pub open spec fn strip_cr(line: Seq<char>) -> Seq<char> {
    if line.len() > 0 && line.last() == '\r' {
        line.drop_last()
    } else {
        line
    }
}

/// The lines of `s` as `str::lines` yields them: split at `\n`, a `\r` right
/// before a `\n` is dropped, and a final line ending adds no empty line.
pub open spec fn text_lines(s: Seq<char>) -> Seq<Seq<char>> {
    let pieces = split_on(s, '\n');
    let terminated = Seq::new((pieces.len() - 1) as nat, |j: int| strip_cr(pieces[j]));
    if pieces.last().len() > 0 {
        terminated.push(pieces.last())
    } else {
        terminated
    }
}

/// The characters with the Unicode `White_Space` property (`char::is_whitespace`).
pub open spec fn is_space(c: char) -> bool {
    ||| c == ' '
    ||| ('\t' <= c && c <= '\r')
    ||| c == '\u{85}'
    ||| c == '\u{A0}'
    ||| c == '\u{1680}'
    ||| ('\u{2000}' <= c && c <= '\u{200A}')
    ||| c == '\u{2028}'
    ||| c == '\u{2029}'
    ||| c == '\u{202F}'
    ||| c == '\u{205F}'
    ||| c == '\u{3000}'
}

/// The maximal runs of non-whitespace characters of `s`, in order.
pub open spec fn words(s: Seq<char>) -> Seq<Seq<char>>
    decreases s.len(),
{
    if s.len() == 0 {
        Seq::<Seq<char>>::empty()
    } else {
        let w = words(s.drop_last());
        let c = s.last();
        if is_space(c) {
            w
        } else if s.len() >= 2 && !is_space(s[s.len() - 2]) {
            w.update(w.len() - 1, w.last().push(c))
        } else {
            w.push(seq![c])
        }
    }
}

/// Input as the quick panel stores it: its words separated by single spaces.
pub open spec fn cleaned(s: Seq<char>) -> Seq<char> {
    join_with(words(s), seq![' '])
}

/// The decimal digit for `d < 10`.
pub open spec fn digit_char(d: nat) -> char {
    (('0' as nat) + d) as char
}

/// The decimal rendering of `n` without leading zeros.
pub open spec fn decimal(n: nat) -> Seq<char>
    decreases n,
{
    if n < 10 {
        seq![digit_char(n)]
    } else {
        decimal(n / 10).push(digit_char(n % 10))
    }
}

/// The decimal rendering of a signed integer, with a leading `-` when negative.
pub open spec fn signed_decimal(n: int) -> Seq<char> {
    if n < 0 {
        seq!['-'] + decimal((-n) as nat)
    } else {
        decimal(n as nat)
    }
}

/// Lexicographic order of character sequences by code point; for text held as
/// UTF-8 this is the order in which `String`s compare.
pub open spec fn text_lt(a: Seq<char>, b: Seq<char>) -> bool
    decreases a.len(),
{
    if a.len() == 0 {
        b.len() > 0
    } else if b.len() == 0 {
        false
    } else if a[0] != b[0] {
        a[0] < b[0]
    } else {
        text_lt(a.drop_first(), b.drop_first())
    }
}

/// The character sequences held by a sequence of character vectors.
pub open spec fn texts(v: Seq<Vec<char>>) -> Seq<Seq<char>> {
    v.map_values(|x: Vec<char>| x@)
}

/// The text of a sequence of `String`s.
pub open spec fn string_views(v: Seq<String>) -> Seq<Seq<char>> {
    v.map_values(|s: String| s@)
}

// ---------------------------------------------------------------------------
// Lemmas
// ---------------------------------------------------------------------------

pub proof fn lemma_split_on_nonempty(s: Seq<char>, sep: char)
    ensures
        split_on(s, sep).len() >= 1,
    decreases s.len(),
{
    if s.len() > 0 {
        lemma_split_on_nonempty(s.drop_last(), sep);
    }
}

/// `text_lt` is irreflexive.
pub proof fn lemma_text_lt_irreflexive(a: Seq<char>)
    ensures
        !text_lt(a, a),
    decreases a.len(),
{
    if a.len() > 0 {
        lemma_text_lt_irreflexive(a.drop_first());
    }
}

/// `text_lt` is asymmetric.
pub proof fn lemma_text_lt_asymmetric(a: Seq<char>, b: Seq<char>)
    requires
        text_lt(a, b),
    ensures
        !text_lt(b, a),
    decreases a.len(),
{
    if a.len() > 0 && b.len() > 0 && a[0] == b[0] {
        lemma_text_lt_asymmetric(a.drop_first(), b.drop_first());
    }
}

/// `text_lt` is transitive.
pub proof fn lemma_text_lt_transitive(a: Seq<char>, b: Seq<char>, c: Seq<char>)
    requires
        text_lt(a, b),
        text_lt(b, c),
    ensures
        text_lt(a, c),
    decreases a.len(),
{
    if a.len() > 0 && b.len() > 0 && c.len() > 0 && a[0] == b[0] && b[0] == c[0] {
        lemma_text_lt_transitive(a.drop_first(), b.drop_first(), c.drop_first());
    }
}

/// Two different sequences are ordered one way or the other.
pub proof fn lemma_text_lt_total(a: Seq<char>, b: Seq<char>)
    requires
        a != b,
    ensures
        text_lt(a, b) || text_lt(b, a),
    decreases a.len(),
{
    if a.len() > 0 && b.len() > 0 && a[0] == b[0] {
        if a.drop_first() == b.drop_first() {
            assert(a =~= seq![a[0]] + a.drop_first());
            assert(b =~= seq![b[0]] + b.drop_first());
        }
        lemma_text_lt_total(a.drop_first(), b.drop_first());
    } else if a.len() == 0 && b.len() == 0 {
        assert(a =~= b);
    }
}

pub proof fn lemma_join_push(parts: Seq<Seq<char>>, sep: Seq<char>, x: Seq<char>)
    requires
        parts.len() > 0,
    ensures
        join_with(parts.push(x), sep) == join_with(parts, sep) + sep + x,
{
    assert(parts.push(x).drop_last() =~= parts);
}

pub proof fn lemma_join_extend_last(parts: Seq<Seq<char>>, sep: Seq<char>, c: char)
    requires
        parts.len() > 0,
    ensures
        join_with(parts.update(parts.len() - 1, parts.last().push(c)), sep)
            == join_with(parts, sep).push(c),
{
    let q = parts.update(parts.len() - 1, parts.last().push(c));
    if parts.len() == 1 {
    } else {
        assert(q.drop_last() =~= parts.drop_last());
        assert(join_with(q, sep) == join_with(parts.drop_last(), sep) + sep + parts.last().push(c));
        assert(join_with(parts, sep) == join_with(parts.drop_last(), sep) + sep + parts.last());
        assert((join_with(parts.drop_last(), sep) + sep + parts.last()).push(c)
            =~= join_with(parts.drop_last(), sep) + sep + parts.last().push(c));
    }
}

/// The words of a prefix that ends in a non-space character end with a word.
proof fn lemma_words_nonempty_after_letter(s: Seq<char>)
    requires
        s.len() > 0,
        !is_space(s.last()),
    ensures
        words(s).len() > 0,
    decreases s.len(),
{
    if s.len() >= 2 && !is_space(s[s.len() - 2]) {
        assert(s.drop_last().last() == s[s.len() - 2]);
        lemma_words_nonempty_after_letter(s.drop_last());
    }
}

/// No word is empty and none holds a space.
pub proof fn lemma_words_shape(s: Seq<char>)
    ensures
        forall|i: int| 0 <= i < words(s).len() ==> #[trigger] words(s)[i].len() > 0,
        forall|i: int, k: int|
            0 <= i < words(s).len() && 0 <= k < words(s)[i].len() ==> !is_space(
                #[trigger] words(s)[i][k],
            ),
    decreases s.len(),
{
    if s.len() > 0 {
        lemma_words_shape(s.drop_last());
        let w = words(s.drop_last());
        let c = s.last();
        if !is_space(c) && s.len() >= 2 && !is_space(s[s.len() - 2]) {
            assert(s.drop_last().last() == s[s.len() - 2]);
            lemma_words_nonempty_after_letter(s.drop_last());
            let nw = w.update(w.len() - 1, w.last().push(c));
            assert forall|i: int, k: int|
                0 <= i < nw.len() && 0 <= k < nw[i].len() implies !is_space(#[trigger] nw[i][k]) by {
                if i == w.len() - 1 && k == w.last().len() {
                } else {
                }
            }
        }
    }
}

// ---------------------------------------------------------------------------
// Executable text handling
// ---------------------------------------------------------------------------

/// Appends one character to a `String` (`String::push`).
#[verifier::external_body]
pub(crate) fn push_char(s: &mut String, c: char)
    ensures
        final(s)@ == old(s)@.push(c),
{
    s.push(c);
}

/// The characters of `s`.
pub fn chars_of(s: &str) -> (r: Vec<char>)
    ensures
        r@ == s@,
{
    let mut r: Vec<char> = Vec::new();
    for c in it: s.chars()
        invariant
            r@ == it.seq().take(it.index() as int),
            it.seq() == s@,
    {
        r.push(c);
    }
    r
}

/// A `String` holding the characters `cs`.
pub fn string_of(cs: &[char]) -> (r: String)
    ensures
        r@ == cs@,
{
    let mut r = String::new();
    let mut i: usize = 0;
    while i < cs.len()
        invariant
            i <= cs.len(),
            r@ == cs@.take(i as int),
        decreases cs.len() - i,
    {
        push_char(&mut r, cs[i]);
        assert(cs@.take(i + 1) == cs@.take(i as int).push(cs@[i as int]));
        i += 1;
    }
    assert(cs@.take(cs.len() as int) == cs@);
    r
}

/// Appends the characters of `cs` to `out`.
pub fn append_chars(out: &mut Vec<char>, cs: &[char])
    ensures
        final(out)@ == old(out)@ + cs@,
{
    let mut i: usize = 0;
    while i < cs.len()
        invariant
            i <= cs.len(),
            out@ == old(out)@ + cs@.take(i as int),
        decreases cs.len() - i,
    {
        out.push(cs[i]);
        assert(cs@.take(i + 1) == cs@.take(i as int).push(cs@[i as int]));
        i += 1;
    }
    assert(cs@.take(cs.len() as int) == cs@);
}

/// Whether two character sequences are equal.
pub fn chars_equal(a: &[char], b: &[char]) -> (r: bool)
    ensures
        r == (a@ == b@),
{
    if a.len() != b.len() {
        return false;
    }
    let mut i: usize = 0;
    while i < a.len()
        invariant
            a.len() == b.len(),
            i <= a.len(),
            forall|k: int| 0 <= k < i ==> a@[k] == b@[k],
        decreases a.len() - i,
    {
        if a[i] != b[i] {
            return false;
        }
        i += 1;
    }
    assert(a@ =~= b@);
    true
}

/// Whether `a` sorts strictly before `b` (`text_lt`).
pub fn chars_lt(a: &[char], b: &[char]) -> (r: bool)
    ensures
        r == text_lt(a@, b@),
{
    let mut i: usize = 0;
    assert(a@.skip(0) =~= a@);
    assert(b@.skip(0) =~= b@);
    while i < a.len() && i < b.len()
        invariant
            i <= a.len(),
            i <= b.len(),
            a@.take(i as int) == b@.take(i as int),
            text_lt(a@, b@) == text_lt(a@.skip(i as int), b@.skip(i as int)),
        decreases a.len() - i,
    {
        if a[i] != b[i] {
            return a[i] < b[i];
        }
        proof {
            let sa = a@.skip(i as int);
            let sb = b@.skip(i as int);
            assert(sa.drop_first() =~= a@.skip(i + 1));
            assert(sb.drop_first() =~= b@.skip(i + 1));
            assert(a@.take(i + 1) =~= a@.take(i as int).push(a@[i as int]));
            assert(b@.take(i + 1) =~= b@.take(i as int).push(b@[i as int]));
        }
        i += 1;
    }
    i < b.len()
}

/// The pieces of `s` between the occurrences of `sep` (`split_on`).
pub fn split_chars(s: &[char], sep: char) -> (r: Vec<Vec<char>>)
    ensures
        texts(r@) == split_on(s@, sep),
        r.len() >= 1,
{
    let mut r: Vec<Vec<char>> = Vec::new();
    r.push(Vec::new());
    let mut i: usize = 0;
    proof {
        assert(s@.take(0) =~= Seq::<char>::empty());
        assert(texts(r@) =~= split_on(s@.take(0), sep));
    }
    while i < s.len()
        invariant
            i <= s.len(),
            r.len() >= 1,
            texts(r@) == split_on(s@.take(i as int), sep),
        decreases s.len() - i,
    {
        let c = s[i];
        let ghost before = texts(r@);
        proof {
            assert(s@.take(i + 1).drop_last() =~= s@.take(i as int));
        }
        if c == sep {
            r.push(Vec::new());
            proof {
                assert(texts(r@) =~= before.push(Seq::<char>::empty()));
            }
        } else {
            let mut piece = r.pop().unwrap();
            proof {
                assert(piece@ == before.last());
                assert(texts(r@) =~= before.drop_last());
            }
            piece.push(c);
            r.push(piece);
            proof {
                assert(texts(r@) =~= before.update(before.len() - 1, before.last().push(c)));
            }
        }
        i += 1;
    }
    assert(s@.take(s.len() as int) =~= s@);
    r
}

/// The lines of `s` (`text_lines`).
pub fn lines_of(s: &[char]) -> (r: Vec<Vec<char>>)
    ensures
        texts(r@) == text_lines(s@),
{
    let pieces = split_chars(s, '\n');
    let ghost p = texts(pieces@);
    let mut r: Vec<Vec<char>> = Vec::new();
    let n = pieces.len();
    let mut j: usize = 0;
    while j + 1 < n
        invariant
            n == pieces.len(),
            n >= 1,
            p == texts(pieces@),
            j < n,
            texts(r@) =~= Seq::new(j as nat, |k: int| strip_cr(p[k])),
        decreases n - j,
    {
        let piece = &pieces[j];
        let mut line: Vec<char> = Vec::new();
        let keep = if piece.len() > 0 && piece[piece.len() - 1] == '\r' {
            piece.len() - 1
        } else {
            piece.len()
        };
        let mut k: usize = 0;
        while k < keep
            invariant
                keep <= piece.len(),
                k <= keep,
                line@ == piece@.take(k as int),
            decreases keep - k,
        {
            line.push(piece[k]);
            assert(piece@.take(k + 1) =~= piece@.take(k as int).push(piece@[k as int]));
            k += 1;
        }
        proof {
            assert(texts(pieces@)[j as int] == piece@);
            assert(line@ =~= strip_cr(piece@));
        }
        let ghost rb = texts(r@);
        r.push(line);
        proof {
            assert(texts(r@) =~= rb.push(line@));
        }
        j += 1;
    }
    let last = &pieces[n - 1];
    if last.len() > 0 {
        let mut copy: Vec<char> = Vec::new();
        append_chars(&mut copy, last.as_slice());
        proof {
            assert(p[n - 1] == last@);
        }
        let ghost rb = texts(r@);
        r.push(copy);
        proof {
            assert(texts(r@) =~= rb.push(copy@));
        }
    }
    proof {
        assert(p.last() == p[n - 1]);
    }
    r
}

/// Whether `c` is whitespace (`is_space`).
pub fn char_is_space(c: char) -> (r: bool)
    ensures
        r == is_space(c),
{
    c == ' ' || ('\t' <= c && c <= '\r') || c == '\u{85}' || c == '\u{A0}' || c == '\u{1680}' || (
    '\u{2000}' <= c && c <= '\u{200A}') || c == '\u{2028}' || c == '\u{2029}' || c == '\u{202F}'
        || c == '\u{205F}' || c == '\u{3000}'
}

/// Input with every run of whitespace (tabs and line breaks included) turned
/// into a single space and whitespace at both ends removed.
pub fn clean_input(value: &str) -> (r: String)
    ensures
        r@ == cleaned(value@),
{
    let cs = chars_of(value);
    let mut out: Vec<char> = Vec::new();
    let mut any_word = false;
    let mut i: usize = 0;
    while i < cs.len()
        invariant
            i <= cs.len(),
            cs@ == value@,
            out@ == join_with(words(cs@.take(i as int)), seq![' ']),
            any_word == (words(cs@.take(i as int)).len() > 0),
        decreases cs.len() - i,
    {
        let c = cs[i];
        let ghost pre = cs@.take(i as int);
        let ghost w = words(pre);
        proof {
            assert(cs@.take(i + 1).drop_last() =~= pre);
            assert(cs@.take(i + 1).last() == c);
        }
        if !char_is_space(c) {
            if i >= 1 && !char_is_space(cs[i - 1]) {
                proof {
                    assert(cs@.take(i + 1)[i - 1] == cs@[i - 1]);
                    assert(pre.last() == cs@[i - 1]);
                    lemma_words_nonempty_after_letter(pre);
                    lemma_join_extend_last(w, seq![' '], c);
                }
                out.push(c);
            } else {
                if any_word {
                    proof {
                        lemma_join_push(w, seq![' '], seq![c]);
                    }
                    out.push(' ');
                    out.push(c);
                    proof {
                        assert(out@ =~= join_with(w, seq![' ']) + seq![' '] + seq![c]);
                    }
                } else {
                    proof {
                        assert(w.push(seq![c]) =~= seq![seq![c]]);
                    }
                    out.push(c);
                    proof {
                        assert(out@ =~= seq![c]);
                    }
                }
                any_word = true;
            }
        }
        i += 1;
    }
    assert(cs@.take(cs.len() as int) =~= cs@);
    string_of(out.as_slice())
}

/// Appends the decimal rendering of `n` to `out`.
pub fn push_decimal(out: &mut Vec<char>, n: u64)
    ensures
        final(out)@ == old(out)@ + decimal(n as nat),
    decreases n,
{
    if n >= 10 {
        push_decimal(out, n / 10);
    }
    proof {
        assert(n < 10 ==> n % 10 == n);
    }
    out.push(digit_char_exec(n % 10));
    proof {
        if n >= 10 {
            assert(old(out)@ + decimal(n as nat) =~= old(out)@ + decimal((n / 10) as nat) + seq![
                digit_char((n % 10) as nat),
            ]);
        } else {
            assert(old(out)@ + decimal(n as nat) =~= old(out)@ + seq![digit_char((n % 10) as nat)]);
        }
    }
}

/// The digit character for `d < 10`.
fn digit_char_exec(d: u64) -> (c: char)
    requires
        d < 10,
    ensures
        c == digit_char(d as nat),
{
    if d == 0 {
        '0'
    } else if d == 1 {
        '1'
    } else if d == 2 {
        '2'
    } else if d == 3 {
        '3'
    } else if d == 4 {
        '4'
    } else if d == 5 {
        '5'
    } else if d == 6 {
        '6'
    } else if d == 7 {
        '7'
    } else if d == 8 {
        '8'
    } else {
        '9'
    }
}

/// Appends the decimal rendering of a signed 32-bit integer to `out`.
pub fn push_signed_decimal(out: &mut Vec<char>, n: i32)
    ensures
        final(out)@ == old(out)@ + signed_decimal(n as int),
{
    if n < 0 {
        out.push('-');
        let m: i64 = -(n as i64);
        push_decimal(out, m as u64);
        proof {
            assert(old(out)@ + signed_decimal(n as int) =~= old(out)@.push('-') + decimal(
                (-n) as nat,
            ));
        }
    } else {
        push_decimal(out, n as u64);
    }
}


/// Whether `value` reads exactly `expected`.
pub fn text_is(value: &str, expected: &str) -> (r: bool)
    ensures
        r == (value@ == expected@),
{
    let a = chars_of(value);
    let b = chars_of(expected);
    chars_equal(a.as_slice(), b.as_slice())
}

/// The characters of each string.
pub fn texts_of(items: &[String]) -> (r: Vec<Vec<char>>)
    ensures
        texts(r@) == string_views(items@),
{
    let mut r: Vec<Vec<char>> = Vec::new();
    let mut i: usize = 0;
    while i < items.len()
        invariant
            i <= items.len(),
            texts(r@) == string_views(items@.take(i as int)),
        decreases items.len() - i,
    {
        let cs = chars_of(items[i].as_str());
        let ghost before = r@;
        r.push(cs);
        proof {
            assert(texts(r@) =~= texts(before).push(items@[i as int]@));
            assert(string_views(items@.take(i + 1)) =~= string_views(items@.take(i as int)).push(
                items@[i as int]@,
            ));
        }
        i += 1;
    }
    proof {
        assert(items@.take(items.len() as int) =~= items@);
    }
    r
}

/// A string for each character sequence.
pub fn strings_of(items: &Vec<Vec<char>>) -> (r: Vec<String>)
    ensures
        string_views(r@) == texts(items@),
{
    let mut r: Vec<String> = Vec::new();
    let mut i: usize = 0;
    while i < items.len()
        invariant
            i <= items.len(),
            string_views(r@) == texts(items@.take(i as int)),
        decreases items.len() - i,
    {
        let s = string_of(items[i].as_slice());
        let ghost before = r@;
        r.push(s);
        proof {
            assert(string_views(r@) =~= string_views(before).push(items@[i as int]@));
            assert(texts(items@.take(i + 1)) =~= texts(items@.take(i as int)).push(items@[i as int]@));
        }
        i += 1;
    }
    proof {
        assert(items@.take(items.len() as int) =~= items@);
    }
    r
}

/// Whether `text` is one of `items`.
pub fn contains_text(items: &Vec<Vec<char>>, text: &[char]) -> (r: bool)
    ensures
        r == texts(items@).contains(text@),
{
    let mut i: usize = 0;
    while i < items.len()
        invariant
            i <= items.len(),
            forall|k: int| 0 <= k < i ==> items@[k]@ != text@,
        decreases items.len() - i,
    {
        if chars_equal(items[i].as_slice(), text) {
            proof {
                assert(texts(items@)[i as int] == text@);
            }
            return true;
        }
        i += 1;
    }
    proof {
        if texts(items@).contains(text@) {
            let k = choose|k: int| 0 <= k < texts(items@).len() && texts(items@)[k] == text@;
            assert(items@[k]@ == text@);
        }
    }
    false
}

} // verus!
