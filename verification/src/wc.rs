//! Counting lines, words, characters and bytes, as the `wc` tool does.
use vstd::prelude::*;
use vstd::utf8::{decode_utf8, valid_utf8};
use crate::text::{chars_to_string, is_white_space, is_whitespace};

verus! {

// ── Counting ────────────────────────────────────────────────────────────────

/// The four counts of a text.
pub struct Counts {
    pub bytes: usize,
    pub lines: usize,
    pub words: usize,
    pub chars: usize,
}

/// What `String::from_utf8_lossy` makes of a byte string, as characters.
pub uninterp spec fn lossy_decode(bytes: Seq<u8>) -> Seq<char>;

/// `String::from_utf8_lossy`, then its characters: valid UTF-8 decodes as
/// itself; each invalid sequence, of one byte or more, becomes one U+FFFD, so
/// no byte gives more than one character (the exact rule for invalid input is
/// left to the name `lossy_decode`).
#[verifier::external_body]
fn lossy_chars(data: &[u8]) -> (r: Vec<char>)
    ensures
        r@ == lossy_decode(data@),
        r@.len() <= data@.len(),
        valid_utf8(data@) ==> r@ == decode_utf8(data@),
{
    String::from_utf8_lossy(data).chars().collect()
}

/// Number of line feeds in a byte string.
pub open spec fn newline_count(s: Seq<u8>) -> nat
    decreases s.len(),
{
    if s.len() == 0 {
        0
    } else {
        newline_count(s.drop_last()) + if s.last() == 10 {
            1nat
        } else {
            0nat
        }
    }
}

/// Number of words: maximal runs of characters that are not white space.
pub open spec fn word_count(s: Seq<char>) -> nat
    decreases s.len(),
{
    if s.len() == 0 {
        0
    } else {
        let starts = !is_white_space(s.last()) && (s.len() == 1 || is_white_space(
            s[s.len() - 2],
        ));
        word_count(s.drop_last()) + if starts {
            1nat
        } else {
            0nat
        }
    }
}

/// The line count of a byte string is the number of its line feeds (byte
/// 0x0A), and of no other byte.
pub proof fn lemma_newline_count_line_feeds(s: Seq<u8>)
    ensures
        newline_count(s) == s.filter(|b: u8| b == 10u8).len(),
    decreases s.len(),
{
    reveal(Seq::filter);
    if s.len() > 0 {
        lemma_newline_count_line_feeds(s.drop_last());
    }
}

/// Line counts add up over a split: the lines of `a` then `b` are those of
/// `a` and those of `b`; and a single byte is one line exactly when it is a
/// line feed.
pub proof fn lemma_newline_count_concat(a: Seq<u8>, b: Seq<u8>)
    ensures
        newline_count(a + b) == newline_count(a) + newline_count(b),
        forall|x: u8| #[trigger] newline_count(seq![x]) == if x == 10 {
            1nat
        } else {
            0nat
        },
    decreases b.len(),
{
    assert forall|x: u8| #[trigger] newline_count(seq![x]) == if x == 10 {
        1nat
    } else {
        0nat
    } by {
        assert(seq![x].drop_last() =~= Seq::<u8>::empty());
        assert(seq![x].last() == x);
        assert(newline_count(Seq::<u8>::empty()) == 0);
    }
    if b.len() > 0 {
        lemma_newline_count_concat(a, b.drop_last());
        assert((a + b).drop_last() =~= a + b.drop_last());
    } else {
        assert(a + b =~= a);
    }
}

proof fn lemma_newline_count_bound(s: Seq<u8>)
    ensures
        newline_count(s) <= s.len(),
    decreases s.len(),
{
    if s.len() > 0 {
        lemma_newline_count_bound(s.drop_last());
    }
}

proof fn lemma_word_count_bound(s: Seq<char>)
    ensures
        word_count(s) <= s.len(),
    decreases s.len(),
{
    if s.len() > 0 {
        lemma_word_count_bound(s.drop_last());
    }
}

/// The counts of `data`, whose characters (decoded) are `text`: its bytes,
/// its line feeds, the words of `text` and the characters of `text`.
pub fn count_text(data: &[u8], text: &[char]) -> (c: Counts)
    ensures
        c.bytes == data@.len(),
        c.lines == newline_count(data@),
        c.words == word_count(text@),
        c.chars == text@.len(),
{
    let mut lines: usize = 0;
    let mut i: usize = 0;
    assert(data@.take(0) =~= Seq::<u8>::empty());
    while i < data.len()
        invariant
            i <= data.len(),
            lines == newline_count(data@.take(i as int)),
        decreases data.len() - i,
    {
        let ghost t = data@.take(i + 1);
        assert(t.drop_last() =~= data@.take(i as int));
        proof {
            lemma_newline_count_bound(data@.take(i as int));
        }
        if data[i] == 10 {
            lines = lines + 1;
        }
        i = i + 1;
    }
    assert(data@.take(data.len() as int) =~= data@);
    let mut words: usize = 0;
    let mut k: usize = 0;
    assert(text@.take(0) =~= Seq::<char>::empty());
    while k < text.len()
        invariant
            k <= text.len(),
            words == word_count(text@.take(k as int)),
        decreases text.len() - k,
    {
        let ghost t = text@.take(k + 1);
        assert(t.drop_last() =~= text@.take(k as int));
        proof {
            lemma_word_count_bound(text@.take(k as int));
        }
        if !is_whitespace(text[k]) && (k == 0 || is_whitespace(text[k - 1])) {
            words = words + 1;
        }
        k = k + 1;
    }
    assert(text@.take(text.len() as int) =~= text@);
    Counts { bytes: data.len(), lines, words, chars: text.len() }
}

/// Counts the bytes, lines, words and characters of `data`, read as UTF-8
/// with invalid sequences replaced.
pub fn count(data: &[u8]) -> (c: Counts)
    ensures
        c.bytes == data@.len(),
        c.lines == newline_count(data@),
        c.words == word_count(lossy_decode(data@)),
        c.chars == lossy_decode(data@).len(),
        c.chars <= c.bytes,
        valid_utf8(data@) ==> c.words == word_count(decode_utf8(data@)) && c.chars
            == decode_utf8(data@).len(),
{
    let text = lossy_chars(data);
    count_text(data, text.as_slice())
}

// ── Formatting ──────────────────────────────────────────────────────────────

/// The character of a decimal digit.
pub open spec fn digit_char(d: nat) -> char {
    ((48 + d) as u8) as char
}

/// The decimal digits of `n`, most significant first, without leading zeros
/// (`0` is written `0`).
pub open spec fn decimal(n: nat) -> Seq<char>
    decreases n,
{
    if n < 10 {
        seq![digit_char(n)]
    } else {
        decimal(n / 10).push(digit_char(n % 10))
    }
}

/// `s` right-aligned in a field of `w` characters: spaces in front of it
/// make up the width, and a longer `s` is not cut.
pub open spec fn right_align(s: Seq<char>, w: nat) -> Seq<char> {
    if s.len() < w {
        Seq::new((w - s.len()) as nat, |i: int| ' ') + s
    } else {
        s
    }
}

/// Appends the decimal digits of `n`.
fn push_decimal(out: &mut Vec<char>, n: usize)
    ensures
        final(out)@ == old(out)@ + decimal(n as nat),
    decreases n,
{
    if n >= 10 {
        push_decimal(out, n / 10);
    }
    let d: u8 = (n % 10) as u8;
    out.push((48 + d) as char);
    assert(final(out)@ =~= old(out)@ + decimal(n as nat));
}

/// `n` in decimal, right-aligned in eight characters (`{:>8}`).
pub fn format_count(n: usize) -> (r: String)
    ensures
        r@ == right_align(decimal(n as nat), 8),
{
    let mut digits: Vec<char> = Vec::new();
    push_decimal(&mut digits, n);
    assert(digits@ =~= decimal(n as nat));
    let mut out: Vec<char> = Vec::new();
    if digits.len() < 8 {
        let pad = 8 - digits.len();
        let mut k: usize = 0;
        while k < pad
            invariant
                k <= pad,
                out@ == Seq::new(k as nat, |i: int| ' '),
            decreases pad - k,
        {
            out.push(' ');
            k = k + 1;
            assert(out@ =~= Seq::new(k as nat, |i: int| ' '));
        }
    }
    let ghost base = out@;
    let mut k: usize = 0;
    while k < digits.len()
        invariant
            k <= digits.len(),
            out@ == base + digits@.take(k as int),
        decreases digits.len() - k,
    {
        out.push(digits[k]);
        k = k + 1;
        assert(out@ =~= base + digits@.take(k as int));
    }
    assert(digits@.take(digits.len() as int) =~= digits@);
    assert(out@ =~= right_align(decimal(n as nat), 8));
    chars_to_string(&out)
}


// ── Reports ─────────────────────────────────────────────────────────────────

/// Which counts a report shows.
pub struct WcOptions {
    pub show_bytes: bool,
    pub show_lines: bool,
    pub show_words: bool,
    pub show_chars: bool,
}

/// A count as shown: eight characters wide.
pub open spec fn shown(n: usize) -> Seq<char> {
    right_align(decimal(n as nat), 8)
}

/// `shown(n)` where `on`, nothing otherwise.
pub open spec fn shown_if(on: bool, n: usize) -> Seq<char> {
    if on {
        shown(n)
    } else {
        seq![]
    }
}

/// One report line: with no count chosen, lines, words and bytes; else the
/// chosen ones in the order lines, words, bytes, characters; then a space
/// and the label, if there is a label.
pub open spec fn report_line(c: Counts, o: WcOptions, label: Seq<char>) -> Seq<char> {
    let default_mode = !o.show_bytes && !o.show_lines && !o.show_words && !o.show_chars;
    let body = if default_mode {
        shown(c.lines) + shown(c.words) + shown(c.bytes)
    } else {
        shown_if(o.show_lines, c.lines) + shown_if(o.show_words, c.words) + shown_if(
            o.show_bytes,
            c.bytes,
        ) + shown_if(o.show_chars, c.chars)
    };
    if label.len() > 0 {
        body + seq![' '] + label
    } else {
        body
    }
}

/// The options that choose lines, words, bytes and characters as given.
pub open spec fn options(lines: bool, words: bool, bytes: bool, chars: bool) -> WcOptions {
    WcOptions { show_bytes: bytes, show_lines: lines, show_words: words, show_chars: chars }
}

/// The columns of a report come in the order lines, words, bytes,
/// characters: choosing one more count, besides counts that come after it,
/// puts its column in front of theirs; a count chosen alone is its column
/// alone; choosing none is choosing lines, words and bytes; and a label
/// follows the columns after one space.
pub proof fn lemma_report_columns(
    c: Counts,
    lines: bool,
    words: bool,
    bytes: bool,
    chars: bool,
    label: Seq<char>,
)
    ensures
        (words || bytes || chars) ==> report_line(c, options(true, words, bytes, chars), seq![])
            == shown(c.lines) + report_line(c, options(false, words, bytes, chars), seq![]),
        (bytes || chars) ==> report_line(c, options(false, true, bytes, chars), seq![]) == shown(
            c.words,
        ) + report_line(c, options(false, false, bytes, chars), seq![]),
        chars ==> report_line(c, options(false, false, true, true), seq![]) == shown(c.bytes)
            + report_line(c, options(false, false, false, true), seq![]),
        report_line(c, options(true, false, false, false), seq![]) == shown(c.lines),
        report_line(c, options(false, true, false, false), seq![]) == shown(c.words),
        report_line(c, options(false, false, true, false), seq![]) == shown(c.bytes),
        report_line(c, options(false, false, false, true), seq![]) == shown(c.chars),
        report_line(c, options(false, false, false, false), seq![]) == report_line(
            c,
            options(true, true, true, false),
            seq![],
        ),
        label.len() > 0 ==> report_line(c, options(lines, words, bytes, chars), label)
            == report_line(c, options(lines, words, bytes, chars), seq![]) + seq![' '] + label,
{
    let e = Seq::<char>::empty();
    assert(shown(c.lines) + e =~= shown(c.lines));
    assert(e + shown(c.words) + e =~= shown(c.words));
    assert(e + e + shown(c.bytes) + e =~= shown(c.bytes));
    assert(e + e + e + shown(c.chars) =~= shown(c.chars));
    assert(shown(c.lines) + shown_if(words, c.words) + shown_if(bytes, c.bytes) + shown_if(
        chars,
        c.chars,
    ) =~= shown(c.lines) + (e + shown_if(words, c.words) + shown_if(bytes, c.bytes) + shown_if(
        chars,
        c.chars,
    )));
    assert(e + shown(c.words) + shown_if(bytes, c.bytes) + shown_if(chars, c.chars) =~= shown(
        c.words,
    ) + (e + e + shown_if(bytes, c.bytes) + shown_if(chars, c.chars)));
    assert(e + e + shown(c.bytes) + shown(c.chars) =~= shown(c.bytes) + (e + e + e + shown(
        c.chars,
    )));
    assert(shown(c.lines) + shown(c.words) + shown(c.bytes) + e =~= shown(c.lines) + shown(c.words)
        + shown(c.bytes));
}

/// Appends the characters of `s`.
fn append_str(out: &mut Vec<char>, s: &str)
    ensures
        final(out)@ == old(out)@ + s@,
{
    let cs = crate::text::str_chars(s);
    let ghost base = out@;
    let mut k: usize = 0;
    while k < cs.len()
        invariant
            k <= cs.len(),
            out@ == base + cs@.take(k as int),
        decreases cs.len() - k,
    {
        out.push(cs[k]);
        k = k + 1;
        assert(out@ =~= base + cs@.take(k as int));
    }
    assert(cs@.take(cs.len() as int) =~= cs@);
}

/// The report line for `c` under `o`, labelled `label`.
pub fn render_counts(c: &Counts, o: &WcOptions, label: &str) -> (r: String)
    ensures
        r@ == report_line(*c, *o, label@),
{
    let default_mode = !o.show_bytes && !o.show_lines && !o.show_words && !o.show_chars;
    let mut out: Vec<char> = Vec::new();
    if default_mode {
        append_str(&mut out, format_count(c.lines).as_str());
        append_str(&mut out, format_count(c.words).as_str());
        append_str(&mut out, format_count(c.bytes).as_str());
    } else {
        if o.show_lines {
            append_str(&mut out, format_count(c.lines).as_str());
        }
        let ghost a = out@;
        if o.show_words {
            append_str(&mut out, format_count(c.words).as_str());
        }
        assert(out@ =~= a + shown_if(o.show_words, c.words));
        let ghost b = out@;
        if o.show_bytes {
            append_str(&mut out, format_count(c.bytes).as_str());
        }
        assert(out@ =~= b + shown_if(o.show_bytes, c.bytes));
        let ghost d = out@;
        if o.show_chars {
            append_str(&mut out, format_count(c.chars).as_str());
        }
        assert(out@ =~= d + shown_if(o.show_chars, c.chars));
        assert(a =~= shown_if(o.show_lines, c.lines));
    }
    let ghost body = out@;
    if !label.is_empty() {
        out.push(' ');
        append_str(&mut out, label);
        assert(out@ =~= body + seq![' '] + label@);
    }
    assert(out@ =~= report_line(*c, *o, label@));
    chars_to_string(&out)
}

/// The counts of two texts added up.
pub fn add_counts(a: &Counts, b: &Counts) -> (r: Counts)
    requires
        a.bytes + b.bytes <= usize::MAX,
        a.lines + b.lines <= usize::MAX,
        a.words + b.words <= usize::MAX,
        a.chars + b.chars <= usize::MAX,
    ensures
        r.bytes == a.bytes + b.bytes,
        r.lines == a.lines + b.lines,
        r.words == a.words + b.words,
        r.chars == a.chars + b.chars,
{
    Counts {
        bytes: a.bytes + b.bytes,
        lines: a.lines + b.lines,
        words: a.words + b.words,
        chars: a.chars + b.chars,
    }
}

} // verus!
