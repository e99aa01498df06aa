//! Text handling for the mapping file: lines, whitespace-separated words, and unsigned numbers,
//! with the meanings Rust's `str::lines`, `str::split_whitespace` and `usize::from_str` give them.
use vstd::prelude::*;
use crate::routing::decimal;
use crate::routing::digit_char;

verus! {

/// Whether `c` is white space in Unicode's sense (what `char::is_whitespace` answers): tab, line
/// feed, vertical tab, form feed, carriage return, space, next line, no-break space, ogham space
/// mark, the spaces from en quad to hair space, line and paragraph separators, narrow no-break space,
/// medium mathematical space and ideographic space.
pub open spec fn is_white(c: char) -> bool {
    let v = c as u32;
    ||| 0x09 <= v <= 0x0D
    ||| v == 0x20
    ||| v == 0x85
    ||| v == 0xA0
    ||| v == 0x1680
    ||| 0x2000 <= v <= 0x200A
    ||| v == 0x2028
    ||| v == 0x2029
    ||| v == 0x202F
    ||| v == 0x205F
    ||| v == 0x3000
}

/// Whether `c` is white space (see [`is_white`]).
pub fn white(c: char) -> (r: bool)
    ensures
        r == is_white(c),
{
    let v = c as u32;
    (0x09 <= v && v <= 0x0D) || v == 0x20 || v == 0x85 || v == 0xA0 || v == 0x1680 || (0x2000 <= v && v
        <= 0x200A) || v == 0x2028 || v == 0x2029 || v == 0x202F || v == 0x205F || v == 0x3000
}

/// Scanning `s` for words: the words completed so far, and the word in progress.
pub open spec fn word_scan(s: Seq<char>) -> (Seq<Seq<char>>, Seq<char>)
    decreases s.len(),
{
    if s.len() == 0 {
        (Seq::empty(), Seq::empty())
    } else {
        let p = word_scan(s.drop_last());
        let c = s.last();
        if is_white(c) {
            if p.1.len() > 0 {
                (p.0.push(p.1), Seq::empty())
            } else {
                (p.0, Seq::empty())
            }
        } else {
            (p.0, p.1.push(c))
        }
    }
}

/// The words of `s`: its maximal runs of characters that are not white space, in order.
pub open spec fn words(s: Seq<char>) -> Seq<Seq<char>> {
    let p = word_scan(s);
    if p.1.len() > 0 {
        p.0.push(p.1)
    } else {
        p.0
    }
}

/// Splits `line` into its words (see [`words`]).
pub fn split_words(line: &Vec<char>) -> (w: Vec<Vec<char>>)
    ensures
        w.deep_view() == words(line@),
{
    let mut done: Vec<Vec<char>> = Vec::new();
    let mut cur: Vec<char> = Vec::new();
    let mut i: usize = 0;
    while i < line.len()
        invariant
            i <= line@.len(),
            (done.deep_view(), cur@) == word_scan(line@.take(i as int)),
        decreases line@.len() - i,
    {
        proof {
            assert(line@.take(i + 1).drop_last() =~= line@.take(i as int));
        }
        let c = line[i];
        if white(c) {
            if cur.len() > 0 {
                let ghost before = done.deep_view();
                let ghost word = cur@;
                let w = cur;
                done.push(w);
                cur = Vec::new();
                proof {
                    assert(done@[before.len() as int].deep_view() =~= word);
                    assert(done.deep_view() =~= before.push(word));
                }
            } else {
                cur = Vec::new();
            }
        } else {
            cur.push(c);
        }
        i += 1;
        proof {
            assert(cur@ =~= word_scan(line@.take(i as int)).1);
        }
    }
    proof {
        assert(line@.take(i as int) =~= line@);
    }
    if cur.len() > 0 {
        let ghost before = done.deep_view();
        let ghost word = cur@;
        done.push(cur);
        proof {
            assert(done@[before.len() as int].deep_view() =~= word);
            assert(done.deep_view() =~= before.push(word));
        }
    }
    done
}

/// Scanning `s` for lines: the pieces completed by a line feed so far, and the piece in progress.
pub open spec fn line_scan(s: Seq<char>) -> (Seq<Seq<char>>, Seq<char>)
    decreases s.len(),
{
    if s.len() == 0 {
        (Seq::empty(), Seq::empty())
    } else {
        let p = line_scan(s.drop_last());
        if s.last() == '\n' {
            (p.0.push(p.1), Seq::empty())
        } else {
            (p.0, p.1.push(s.last()))
        }
    }
}

/// The pieces of `s` between line feeds, the last one possibly empty. These are the lines
/// `str::lines` yields, except that `lines` drops a carriage return that ends a line and an
/// empty last piece.
pub open spec fn newline_pieces(s: Seq<char>) -> Seq<Seq<char>> {
    line_scan(s).0.push(line_scan(s).1)
}

/// Whether `line` begins with `prefix`.
pub open spec fn has_prefix(line: Seq<char>, prefix: Seq<char>) -> bool {
    prefix.len() <= line.len() && line.take(prefix.len() as int) == prefix
}

/// Whether `line` begins with `prefix` (see [`has_prefix`]).
pub fn starts_with(line: &Vec<char>, prefix: &Vec<char>) -> (r: bool)
    ensures
        r == has_prefix(line@, prefix@),
{
    if prefix.len() > line.len() {
        return false;
    }
    let mut i: usize = 0;
    while i < prefix.len()
        invariant
            prefix@.len() <= line@.len(),
            i <= prefix@.len(),
            forall|j: int| 0 <= j < i ==> line@[j] == prefix@[j],
        decreases prefix@.len() - i,
    {
        if line[i] != prefix[i] {
            assert(line@.take(prefix@.len() as int)[i as int] != prefix@[i as int]);
            return false;
        }
        i += 1;
    }
    assert(line@.take(prefix@.len() as int) =~= prefix@);
    true
}

/// Whether `c` is an ASCII decimal digit.
pub open spec fn is_digit(c: char) -> bool {
    48 <= (c as u32) <= 57
}

/// The value of a string of decimal digits.
pub open spec fn digits_value(s: Seq<char>) -> nat
    decreases s.len(),
{
    if s.len() == 0 {
        0
    } else {
        digits_value(s.drop_last()) * 10 + ((s.last() as u32) - 48) as nat
    }
}

/// A word without its leading `+`, if it has one.
pub open spec fn digits_part(w: Seq<char>) -> Seq<char> {
    if w.len() > 0 && w[0] == '+' { w.skip(1) } else { w }
}

/// The `usize` a word reads as, in the way of `usize::from_str`: an optional leading `+`, then one
/// or more ASCII digits whose value fits a `usize`.
pub open spec fn parse_usize(w: Seq<char>) -> Option<usize> {
    let d = digits_part(w);
    if d.len() > 0 && (forall|i: int| 0 <= i < d.len() ==> #[trigger] is_digit(d[i])) && digits_value(d) <= usize::MAX {
        Some(digits_value(d) as usize)
    } else {
        None
    }
}

proof fn lemma_digits_grow(s: Seq<char>, c: char)
    requires
        is_digit(c),
    ensures
        digits_value(s.push(c)) >= digits_value(s),
        digits_value(s.push(c)) == digits_value(s) * 10 + ((c as u32) - 48),
{
    assert(s.push(c).drop_last() =~= s);
}

/// Reads a word as a `usize` (see [`parse_usize`]).
pub fn read_usize(w: &Vec<char>) -> (r: Option<usize>)
    ensures
        r == parse_usize(w@),
{
    let start: usize = if w.len() > 0 && w[0] == '+' { 1 } else { 0 };
    let ghost d = digits_part(w@);
    if start >= w.len() {
        assert(d.len() == 0);
        return None;
    }
    let mut acc: usize = 0;
    let mut over = false;
    let mut i: usize = start;
    while i < w.len()
        invariant
            start <= i <= w@.len(),
            start < w@.len(),
            d == w@.skip(start as int),
            d == digits_part(w@),
            forall|j: int| 0 <= j < i - start ==> #[trigger] is_digit(d[j]),
            !over ==> acc == digits_value(d.take(i - start)),
            over ==> digits_value(d.take(i - start)) > usize::MAX,
        decreases w@.len() - i,
    {
        let c = w[i];
        let v = c as u32;
        assert(d[i - start] == w@[i as int]);
        if v < 48 || v > 57 {
            assert(!is_digit(c));
            assert(!is_digit(d[i - start]));
            return None;
        }
        let dig = (v - 48) as usize;
        proof {
            assert(d.take(i - start + 1) =~= d.take(i - start).push(c));
            lemma_digits_grow(d.take(i - start), c);
        }
        if !over {
            if acc > (usize::MAX - dig) / 10 {
                over = true;
                assert(acc * 10 + dig > usize::MAX) by (nonlinear_arith)
                    requires
                        acc > (usize::MAX - dig) / 10,
                        dig <= 9;
            } else {
                assert(acc * 10 + dig <= usize::MAX) by (nonlinear_arith)
                    requires
                        acc <= (usize::MAX - dig) / 10,
                        dig <= 9;
                acc = acc * 10 + dig;
            }
        }
        i += 1;
    }
    proof {
        assert(d.take(i - start) =~= d);
    }
    if over {
        None
    } else {
        Some(acc)
    }
}

/// The characters of `s`.
pub fn chars_of(s: &str) -> (v: Vec<char>)
    ensures
        v@ == s@,
{
    let mut v: Vec<char> = Vec::new();
    for c in it: s.chars()
        invariant
            v@ == it.seq().take(it.index() as int),
            it.seq() == s@,
    {
        v.push(c);
    }
    v
}


/// Collects characters into a `String` with std's `FromIterator` for `String`, which holds
/// exactly those characters, in the same order.
#[verifier::external_body]
pub(crate) fn string_from_chars(v: &Vec<char>) -> (s: String)
    ensures
        s@ == v@,
{
    String::from_iter(v.iter())
}

proof fn lemma_decimal_digits(n: nat)
    ensures
        decimal(n).len() > 0,
        forall|i: int| 0 <= i < decimal(n).len() ==> #[trigger] is_digit(decimal(n)[i]),
        digits_value(decimal(n)) == n,
    decreases n,
{
    if n < 10 {
        assert(digit_char(n) as u32 == n + 48);
        assert(seq![digit_char(n)].drop_last() =~= Seq::<char>::empty());
        assert(digits_value(Seq::<char>::empty()) == 0);
        assert(digits_value(seq![digit_char(n)]) == n);
    } else {
        lemma_decimal_digits(n / 10);
        let d = n % 10;
        assert(digit_char(d) as u32 == d + 48);
        let s = decimal(n / 10);
        assert(s.push(digit_char(d)).drop_last() =~= s);
        assert(n == (n / 10) * 10 + d);
        assert(digits_value(s.push(digit_char(d))) == digits_value(s) * 10 + d);
    }
}

/// Reading back a number written in decimal gives the number: for every `n` that fits a
/// `usize`, its decimal digits read as `n`, with or without a leading `+`.
pub proof fn law_read_decimal(n: nat)
    requires
        n <= usize::MAX,
    ensures
        parse_usize(decimal(n)) == Some(n as usize),
        parse_usize(seq!['+'] + decimal(n)) == Some(n as usize),
{
    lemma_decimal_digits(n);
    let d = decimal(n);
    assert(is_digit(d[0]));
    assert(d[0] != '+');
    assert(digits_part(d) == d);
    assert((seq!['+'] + d).skip(1) =~= d);
    assert(digits_part(seq!['+'] + d) == d);
}

proof fn lemma_scan_after_white(u: Seq<char>, c: char, v: Seq<char>)
    requires
        is_white(c),
    ensures
        word_scan(u + seq![c] + v) == (words(u) + word_scan(v).0, word_scan(v).1),
    decreases v.len(),
{
    if v.len() == 0 {
        assert(u + seq![c] + v =~= u.push(c));
        assert(u.push(c).drop_last() =~= u);
        assert(words(u) + Seq::<Seq<char>>::empty() =~= words(u));
    } else {
        let w = v.drop_last();
        lemma_scan_after_white(u, c, w);
        assert((u + seq![c] + v).drop_last() =~= u + seq![c] + w);
        assert((u + seq![c] + v).last() == v.last());
        let p = word_scan(w);
        if is_white(v.last()) && p.1.len() > 0 {
            assert(words(u) + p.0.push(p.1) =~= (words(u) + p.0).push(p.1));
        }
    }
}

proof fn lemma_scan_no_white(s: Seq<char>)
    requires
        forall|i: int| 0 <= i < s.len() ==> !is_white(#[trigger] s[i]),
    ensures
        word_scan(s) == (Seq::<Seq<char>>::empty(), s),
    decreases s.len(),
{
    if s.len() > 0 {
        lemma_scan_no_white(s.drop_last());
        assert(!is_white(s[s.len() - 1]));
        assert(s.drop_last().push(s.last()) =~= s);
    }
}

/// The words of a line are its runs of characters between white space: white space splits a line
/// into the words before it and the words after it, and a run without white space is one word
/// (none when empty).
pub proof fn law_words_split_at_white(u: Seq<char>, c: char, v: Seq<char>)
    requires
        is_white(c),
    ensures
        words(u + seq![c] + v) == words(u) + words(v),
{
    lemma_scan_after_white(u, c, v);
    let p = word_scan(v);
    if p.1.len() > 0 {
        assert(words(u) + p.0.push(p.1) =~= (words(u) + p.0).push(p.1));
    }
}

/// A run of characters without white space is one word, and an empty one is none.
pub proof fn law_words_of_run(s: Seq<char>)
    requires
        forall|i: int| 0 <= i < s.len() ==> !is_white(#[trigger] s[i]),
    ensures
        words(s) == if s.len() == 0 { Seq::<Seq<char>>::empty() } else { seq![s] },
{
    lemma_scan_no_white(s);
    if s.len() > 0 {
        assert(Seq::<Seq<char>>::empty().push(s) =~= seq![s]);
    }
}

proof fn lemma_lines_after_feed(u: Seq<char>, v: Seq<char>)
    ensures
        line_scan(u + seq!['\n'] + v) == (newline_pieces(u) + line_scan(v).0, line_scan(v).1),
    decreases v.len(),
{
    if v.len() == 0 {
        assert(u + seq!['\n'] + v =~= u.push('\n'));
        assert(u.push('\n').drop_last() =~= u);
        assert(newline_pieces(u) + Seq::<Seq<char>>::empty() =~= newline_pieces(u));
    } else {
        let w = v.drop_last();
        lemma_lines_after_feed(u, w);
        assert((u + seq!['\n'] + v).drop_last() =~= u + seq!['\n'] + w);
        assert((u + seq!['\n'] + v).last() == v.last());
        let p = line_scan(w);
        if v.last() == '\n' {
            assert(newline_pieces(u) + p.0.push(p.1) =~= (newline_pieces(u) + p.0).push(p.1));
        }
    }
}

proof fn lemma_lines_no_feed(s: Seq<char>)
    requires
        forall|i: int| 0 <= i < s.len() ==> #[trigger] s[i] != '\n',
    ensures
        line_scan(s) == (Seq::<Seq<char>>::empty(), s),
    decreases s.len(),
{
    if s.len() > 0 {
        lemma_lines_no_feed(s.drop_last());
        assert(s[s.len() - 1] != '\n');
        assert(s.drop_last().push(s.last()) =~= s);
    }
}

/// A file's lines are its pieces between line feeds: a line feed splits the text into the lines
/// before it and the lines after it, and a text without line feeds is one line.
pub proof fn law_lines_split_at_feed(u: Seq<char>, v: Seq<char>)
    ensures
        newline_pieces(u + seq!['\n'] + v) == newline_pieces(u) + newline_pieces(v),
{
    lemma_lines_after_feed(u, v);
    let p = line_scan(v);
    assert(newline_pieces(u) + p.0.push(p.1) =~= (newline_pieces(u) + p.0).push(p.1));
}

/// A text without line feeds is one line.
pub proof fn law_lines_of_run(s: Seq<char>)
    requires
        forall|i: int| 0 <= i < s.len() ==> #[trigger] s[i] != '\n',
    ensures
        newline_pieces(s) == seq![s],
{
    lemma_lines_no_feed(s);
    assert(Seq::<Seq<char>>::empty().push(s) =~= seq![s]);
}

/// A word reads as a number only when it is made of decimal digits, after at most one leading
/// `+`, with at least one digit; leading zeros do not change its value.
pub proof fn law_read_only_digits(w: Seq<char>)
    ensures
        parse_usize(w) is Some ==> {
            &&& w.len() > (if w[0] == '+' { 1int } else { 0int })
            &&& forall|i: int| 0 <= i < w.len() ==> is_digit(#[trigger] w[i]) || (i == 0 && w[i] == '+')
        },
        parse_usize(w) is Some && w[0] != '+' ==> parse_usize(seq!['0'] + w) == parse_usize(w),
{
    let d = digits_part(w);
    if parse_usize(w) is Some {
        if w.len() > 0 && w[0] == '+' {
            assert forall|i: int| 0 <= i < w.len() implies is_digit(#[trigger] w[i]) || (i == 0 && w[i] == '+') by {
                if i > 0 {
                    assert(w[i] == d[i - 1]);
                    assert(is_digit(d[i - 1]));
                }
            }
        } else {
            assert forall|i: int| 0 <= i < w.len() implies is_digit(#[trigger] w[i]) || (i == 0 && w[i] == '+') by {
                assert(is_digit(d[i]));
            }
            let z = seq!['0'] + w;
            assert(z[0] == '0');
            assert(digits_part(z) == z);
            assert forall|i: int| 0 <= i < z.len() implies #[trigger] is_digit(z[i]) by {
                if i > 0 {
                    assert(z[i] == w[i - 1]);
                    assert(is_digit(d[i - 1]));
                }
            }
            lemma_zero_lead(w);
        }
    }
}

proof fn lemma_zero_lead(w: Seq<char>)
    ensures
        digits_value(seq!['0'] + w) == digits_value(w),
    decreases w.len(),
{
    let z = seq!['0'] + w;
    if w.len() == 0 {
        assert(z =~= seq!['0']);
        assert(z.drop_last() =~= Seq::<char>::empty());
        assert(digits_value(Seq::<char>::empty()) == 0);
        assert(('0' as u32) == 48);
        assert(digits_value(z) == digits_value(z.drop_last()) * 10 + ((z.last() as u32) - 48) as nat);
    } else {
        lemma_zero_lead(w.drop_last());
        assert(z.drop_last() =~= seq!['0'] + w.drop_last());
        assert(z.last() == w.last());
    }
}

} // verus!
