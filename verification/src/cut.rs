//! Selecting fields from delimited lines, as the `cut` tool does.
use vstd::prelude::*;
use crate::text::{chars_to_string, is_white_space, is_whitespace, str_chars};

verus! {

// ── Splitting ───────────────────────────────────────────────────────────────

/// `s` cut at every character that `sep` accepts: the pieces between them,
/// empty ones included; always at least one piece.
pub open spec fn split_by(s: Seq<char>, sep: spec_fn(char) -> bool) -> Seq<Seq<char>>
    decreases s.len(),
{
    if s.len() == 0 {
        seq![seq![]]
    } else {
        let p = split_by(s.drop_last(), sep);
        if sep(s.last()) {
            p.push(seq![])
        } else {
            p.update(p.len() - 1, p.last().push(s.last()))
        }
    }
}

/// Splitting never gives an empty list of pieces.
pub proof fn lemma_split_nonempty(s: Seq<char>, sep: spec_fn(char) -> bool)
    ensures
        split_by(s, sep).len() >= 1,
    decreases s.len(),
{
    if s.len() > 0 {
        lemma_split_nonempty(s.drop_last(), sep);
    }
}

/// Separators in a list of fields: commas and white space.
pub open spec fn field_separator() -> spec_fn(char) -> bool {
    |c: char| c == ',' || is_white_space(c)
}

/// Separators in a line: the delimiter.
pub open spec fn delimiter_separator(d: char) -> spec_fn(char) -> bool {
    |c: char| c == d
}

// ── Numbers ─────────────────────────────────────────────────────────────────

/// An ASCII decimal digit.
pub open spec fn is_digit_char(c: char) -> bool {
    48 <= (c as u32) <= 57
}

/// The number that a string of decimal digits spells.
pub open spec fn decimal_value(d: Seq<char>) -> nat
    decreases d.len(),
{
    if d.len() == 0 {
        0
    } else {
        10 * decimal_value(d.drop_last()) + ((d.last() as u32) - 48) as nat
    }
}

/// Digits are read most significant first: the value of `a` followed by `b`
/// is the value of `a` shifted left by the length of `b`, plus the value of
/// `b`; and one digit is worth its digit.
pub proof fn lemma_decimal_value_concat(a: Seq<char>, b: Seq<char>)
    ensures
        decimal_value(a + b) == decimal_value(a) * vstd::arithmetic::power::pow(10, b.len())
            + decimal_value(b),
        forall|c: char| is_digit_char(c) ==> #[trigger] decimal_value(seq![c]) == (c as u32) - 48,
    decreases b.len(),
{
    reveal(vstd::arithmetic::power::pow);
    assert forall|c: char| is_digit_char(c) implies #[trigger] decimal_value(seq![c]) == (c as u32)
        - 48 by {
        assert(seq![c].drop_last() =~= Seq::<char>::empty());
        assert(seq![c].last() == c);
        assert(decimal_value(Seq::<char>::empty()) == 0);
    }
    if b.len() == 0 {
        assert(a + b =~= a);
        assert(vstd::arithmetic::power::pow(10, 0) == 1);
    } else {
        let b0 = b.drop_last();
        lemma_decimal_value_concat(a, b0);
        assert((a + b).drop_last() =~= a + b0);
        assert((a + b).last() == b.last());
        let x = decimal_value(a);
        let p = vstd::arithmetic::power::pow(10, b0.len());
        assert(vstd::arithmetic::power::pow(10, b.len()) == 10 * p);
        let y = decimal_value(b0);
        assert(10 * (x * p + y) == x * (10 * p) + 10 * y) by (nonlinear_arith);
    }
}

/// A piece without its leading `+`, if it has one.
pub open spec fn unsigned_part(p: Seq<char>) -> Seq<char> {
    if p.len() > 0 && p[0] == '+' {
        p.drop_first()
    } else {
        p
    }
}

/// Every character is a decimal digit.
pub open spec fn all_digits(d: Seq<char>) -> bool {
    forall|i: int| 0 <= i < d.len() ==> is_digit_char(#[trigger] d[i])
}

/// What `str::parse::<usize>` gives: an optional `+` followed by one or more
/// decimal digits, whose value fits in `usize`.
pub open spec fn parse_usize(p: Seq<char>) -> Option<usize> {
    let d = unsigned_part(p);
    if d.len() > 0 && all_digits(d) && decimal_value(d) <= usize::MAX {
        Some(decimal_value(d) as usize)
    } else {
        None
    }
}

/// Reads a piece as a `usize`, like `str::parse::<usize>`.
pub fn parse_usize_chars(p: &Vec<char>) -> (r: Option<usize>)
    ensures
        r == parse_usize(p@),
{
    let mut k: usize = 0;
    if p.len() > 0 && p[0] == '+' {
        k = 1;
    }
    let start = k;
    let ghost d = unsigned_part(p@);
    if k >= p.len() {
        return None;
    }
    let mut v: u128 = 0;
    let mut over = false;
    while k < p.len()
        invariant
            start <= k <= p.len(),
            start == p@.len() - d.len(),
            d == p@.subrange(start as int, p@.len() as int),
            d == unsigned_part(p@),
            forall|i: int| start <= i < k ==> is_digit_char(#[trigger] p@[i]),
            over <==> decimal_value(p@.subrange(start as int, k as int)) > usize::MAX,
            !over ==> v == decimal_value(p@.subrange(start as int, k as int)),
        decreases p.len() - k,
    {
        let c = p[k];
        let cv = c as u32;
        assert(d[k - start] == p@[k as int]);
        if cv < 48 || cv > 57 {
            assert(!is_digit_char(d[k - start]));
            assert(!all_digits(d));
            return None;
        }
        let ghost prev = p@.subrange(start as int, k as int);
        let ghost next = p@.subrange(start as int, k + 1);
        assert(next.drop_last() =~= prev);
        if !over {
            v = v * 10 + (cv - 48) as u128;
            if v > usize::MAX as u128 {
                over = true;
            }
        }
        k = k + 1;
    }
    assert(p@.subrange(start as int, p@.len() as int) == d);
    assert forall|i: int| 0 <= i < d.len() implies is_digit_char(#[trigger] d[i]) by {
        assert(d[i] == p@[start + i]);
    }
    assert(all_digits(d));
    if over {
        None
    } else {
        Some(v as usize)
    }
}

// ── Field lists ─────────────────────────────────────────────────────────────

/// The field number a piece names: a number read as a `usize`, counting
/// from 1, so that `0` names no field.
pub open spec fn field_number(p: Seq<char>) -> Option<usize> {
    match parse_usize(p) {
        Some(n) => if n >= 1 {
            Some(n)
        } else {
            None
        },
        None => None,
    }
}

/// The numbers that the pieces before position `k` give.
pub open spec fn numbers_of(pieces: Seq<Seq<char>>, k: int) -> Set<usize> {
    Set::new(|n: usize| exists|i: int| 0 <= i < k && field_number(#[trigger] pieces[i]) == Some(n))
}

/// The field numbers named by a field list: every piece between commas and
/// white space that reads as a `usize` of 1 or more.
pub open spec fn field_set(spec: Seq<char>) -> Set<usize> {
    let p = split_by(spec, field_separator());
    numbers_of(p, p.len() as int)
}

/// Strictly increasing.
pub open spec fn strictly_increasing(s: Seq<usize>) -> bool {
    forall|i: int, j: int| 0 <= i < j < s.len() ==> s[i] < s[j]
}

/// Adds the number that `piece` reads as, if any, keeping the list sorted
/// and free of repeats.
#[verifier::spinoff_prover]
fn add_field(fields: &mut Vec<usize>, piece: &Vec<char>)
    requires
        strictly_increasing(old(fields)@),
    ensures
        strictly_increasing(final(fields)@),
        forall|n: usize|
            final(fields)@.contains(n) <==> (old(fields)@.contains(n) || field_number(piece@)
                == Some(n)),
{
    match parse_usize_chars(piece) {
        None => {
            assert forall|m: usize| fields@.contains(m) <==> (old(fields)@.contains(m)
                || field_number(piece@) == Some(m)) by {}
        },
        Some(n) => {
            if n == 0 {
                assert forall|m: usize| fields@.contains(m) <==> (old(fields)@.contains(m)
                    || field_number(piece@) == Some(m)) by {}
                return;
            }
            let mut k: usize = 0;
            while k < fields.len() && fields[k] < n
                invariant
                    k <= fields.len(),
                    forall|j: int| 0 <= j < k ==> fields@[j] < n,
                decreases fields.len() - k,
            {
                k = k + 1;
            }
            if k < fields.len() && fields[k] == n {
                assert(fields@[k as int] == n);
                assert forall|m: usize| fields@.contains(m) <==> (old(fields)@.contains(m)
                    || field_number(piece@) == Some(m)) by {
                    if m == n {
                        assert(fields@[k as int] == m);
                    }
                }
                return;
            }
            let ghost before = fields@;
            assert(before == old(fields)@);
            fields.insert(k, n);
            proof {
                assert(fields@ =~= before.take(k as int) + seq![n] + before.skip(k as int));
                assert forall|i: int, j: int| 0 <= i < j < fields@.len() implies fields@[i]
                    < fields@[j] by {
                    if j < k {
                    } else if j == k {
                    } else if i < k {
                        assert(fields@[j] == before[j - 1]);
                    } else if i == k {
                        assert(fields@[j] == before[j - 1]);
                        assert(before[k as int] > n);
                    } else {
                        assert(fields@[j] == before[j - 1]);
                        assert(fields@[i] == before[i - 1]);
                    }
                }
                assert forall|m: usize| fields@.contains(m) <==> (before.contains(m) || m == n) by {
                    if fields@.contains(m) {
                        let i = choose|i: int| 0 <= i < fields@.len() && fields@[i] == m;
                        if i < k {
                            assert(before[i] == m);
                        } else if i > k {
                            assert(before[i - 1] == m);
                        }
                    }
                    if before.contains(m) {
                        let i = choose|i: int| 0 <= i < before.len() && before[i] == m;
                        if i < k {
                            assert(fields@[i] == m);
                        } else {
                            assert(fields@[i + 1] == m);
                        }
                    }
                    if m == n {
                        assert(fields@[k as int] == n);
                    }
                }
                assert forall|m: usize| fields@.contains(m) <==> (before.contains(m)
                    || field_number(piece@) == Some(m)) by {}
            }
        },
    }
}

/// The field numbers of a field list such as `1,3 5`, sorted and without
/// repeats; pieces that are not numbers, and `0`, are skipped: fields count
/// from 1.
pub fn parse_fields(spec: &str) -> (r: Vec<usize>)
    ensures
        strictly_increasing(r@),
        forall|n: usize| r@.contains(n) <==> field_set(spec@).contains(n),
        forall|i: int| 0 <= i < r@.len() ==> r@[i] >= 1,
{
    let chars = str_chars(spec);
    let ghost s = chars@;
    let ghost sep = field_separator();
    let mut fields: Vec<usize> = Vec::new();
    let mut piece: Vec<char> = Vec::new();
    let mut k: usize = 0;
    assert(s.take(0) =~= Seq::<char>::empty());
    while k < chars.len()
        invariant
            k <= chars.len(),
            s == chars@,
            sep == field_separator(),
            strictly_increasing(fields@),
            split_by(s.take(k as int), sep).len() >= 1,
            piece@ == split_by(s.take(k as int), sep).last(),
            forall|n: usize|
                fields@.contains(n) <==> numbers_of(
                    split_by(s.take(k as int), sep),
                    split_by(s.take(k as int), sep).len() - 1,
                ).contains(n),
        decreases chars.len() - k,
    {
        let c = chars[k];
        let ghost p = split_by(s.take(k as int), sep);
        let ghost t = s.take(k + 1);
        assert(t.drop_last() =~= s.take(k as int));
        assert(t.last() == c);
        if c == ',' || is_whitespace(c) {
            let ghost old_fields = fields@;
            add_field(&mut fields, &piece);
            proof {
                let q = split_by(t, sep);
                assert(q == p.push(seq![]));
                assert forall|n: usize| fields@.contains(n) <==> numbers_of(q, q.len() - 1).contains(
                    n,
                ) by {
                    if numbers_of(q, q.len() - 1).contains(n) {
                        let i = choose|i: int|
                            0 <= i < q.len() - 1 && field_number(#[trigger] q[i]) == Some(n);
                        if i < p.len() - 1 {
                            assert(numbers_of(p, p.len() - 1).contains(n));
                        }
                    }
                    if old_fields.contains(n) {
                        assert(numbers_of(p, p.len() - 1).contains(n));
                        let i = choose|i: int|
                            0 <= i < p.len() - 1 && field_number(#[trigger] p[i]) == Some(n);
                        assert(q[i] == p[i]);
                    }
                    if field_number(piece@) == Some(n) {
                        assert(q[p.len() - 1] == piece@);
                    }
                }
            }
            piece = Vec::new();
            assert(piece@ =~= split_by(t, sep).last());
        } else {
            piece.push(c);
            proof {
                let q = split_by(t, sep);
                assert(q == p.update(p.len() - 1, p.last().push(c)));
                assert forall|n: usize| fields@.contains(n) <==> numbers_of(q, q.len() - 1).contains(
                    n,
                ) by {
                    if numbers_of(q, q.len() - 1).contains(n) {
                        let i = choose|i: int|
                            0 <= i < q.len() - 1 && field_number(#[trigger] q[i]) == Some(n);
                        assert(q[i] == p[i]);
                    }
                    if numbers_of(p, p.len() - 1).contains(n) {
                        let i = choose|i: int|
                            0 <= i < p.len() - 1 && field_number(#[trigger] p[i]) == Some(n);
                        assert(q[i] == p[i]);
                    }
                }
            }
        }
        k = k + 1;
    }
    assert(s.take(chars.len() as int) =~= s);
    let ghost p = split_by(s, sep);
    let ghost old_fields = fields@;
    add_field(&mut fields, &piece);
    proof {
        assert forall|n: usize| fields@.contains(n) <==> numbers_of(p, p.len() as int).contains(n) by {
            if numbers_of(p, p.len() as int).contains(n) {
                let i = choose|i: int| 0 <= i < p.len() && field_number(#[trigger] p[i]) == Some(n);
                if i < p.len() - 1 {
                    assert(numbers_of(p, p.len() - 1).contains(n));
                }
            }
            if old_fields.contains(n) {
                let i = choose|i: int| 0 <= i < p.len() - 1 && field_number(#[trigger] p[i]) == Some(n);
            }
        }
        assert forall|i: int| 0 <= i < fields@.len() implies fields@[i] >= 1 by {
            let n = fields@[i];
            assert(fields@.contains(n));
            let j = choose|j: int| 0 <= j < p.len() && field_number(#[trigger] p[j]) == Some(n);
        }
    }
    fields
}


// ── Cutting lines ───────────────────────────────────────────────────────────

/// The contents of a list of character vectors.
pub open spec fn views(v: Seq<Vec<char>>) -> Seq<Seq<char>> {
    v.map_values(|x: Vec<char>| x@)
}

/// The pieces that the listed fields pick, in the order of the list; a
/// field number past the last piece picks nothing. Fields count from 1.
pub open spec fn selected_parts(parts: Seq<Seq<char>>, fields: Seq<usize>) -> Seq<Seq<char>>
    decreases fields.len(),
{
    if fields.len() == 0 {
        seq![]
    } else {
        let prev = selected_parts(parts, fields.drop_last());
        let f = fields.last();
        if 1 <= f <= parts.len() {
            prev.push(parts[f - 1])
        } else {
            prev
        }
    }
}

/// The pieces joined, with `d` between each two.
pub open spec fn join_with(ps: Seq<Seq<char>>, d: char) -> Seq<char>
    decreases ps.len(),
{
    if ps.len() == 0 {
        seq![]
    } else if ps.len() == 1 {
        ps[0]
    } else {
        join_with(ps.drop_last(), d).push(d) + ps.last()
    }
}

/// The line cut at every delimiter.
pub fn split_line(chars: &Vec<char>, delimiter: char) -> (parts: Vec<Vec<char>>)
    ensures
        views(parts@) == split_by(chars@, delimiter_separator(delimiter)),
{
    let ghost sep = delimiter_separator(delimiter);
    let mut parts: Vec<Vec<char>> = Vec::new();
    let mut cur: Vec<char> = Vec::new();
    let mut k: usize = 0;
    assert(chars@.take(0) =~= Seq::<char>::empty());
    assert(views(parts@).push(cur@) =~= split_by(chars@.take(0), sep));
    while k < chars.len()
        invariant
            k <= chars.len(),
            sep == delimiter_separator(delimiter),
            views(parts@).push(cur@) == split_by(chars@.take(k as int), sep),
        decreases chars.len() - k,
    {
        let c = chars[k];
        let ghost t = chars@.take(k + 1);
        assert(t.drop_last() =~= chars@.take(k as int));
        assert(t.last() == c);
        let ghost before = views(parts@);
        let ghost cur_before = cur@;
        if c == delimiter {
            parts.push(cur);
            cur = Vec::new();
            assert(views(parts@) =~= before.push(cur_before));
            assert(views(parts@).push(cur@) =~= split_by(t, sep));
        } else {
            cur.push(c);
            assert(views(parts@).push(cur@) =~= before.push(cur_before).update(
                before.len() as int,
                cur_before.push(c),
            ));
        }
        k = k + 1;
    }
    assert(chars@.take(chars.len() as int) =~= chars@);
    let ghost before = views(parts@);
    let ghost cur_before = cur@;
    parts.push(cur);
    assert(views(parts@) =~= before.push(cur_before));
    parts
}

/// The selected parts are the listed fields that exist, in the order
/// listed: a field number past the last part, or 0, contributes nothing.
pub proof fn lemma_selected_parts_listed(parts: Seq<Seq<char>>, fields: Seq<usize>)
    ensures
        selected_parts(parts, fields) == fields.filter(|f: usize| 1 <= f <= parts.len()).map_values(
            |f: usize| parts[f - 1],
        ),
    decreases fields.len(),
{
    reveal(Seq::filter);
    if fields.len() > 0 {
        lemma_selected_parts_listed(parts, fields.drop_last());
        let pred = |f: usize| 1 <= f <= parts.len();
        let g = |f: usize| parts[f - 1];
        let prev = fields.drop_last().filter(pred);
        if pred(fields.last()) {
            assert(prev.push(fields.last()).map_values(g) =~= prev.map_values(g).push(
                g(fields.last()),
            ));
        }
    }
}

/// Selecting from a list of fields is selecting from each part of the list
/// in turn: the parts selected by `a` then `b` are those selected by `a`
/// followed by those selected by `b`.
pub proof fn lemma_selected_parts_concat(parts: Seq<Seq<char>>, a: Seq<usize>, b: Seq<usize>)
    ensures
        selected_parts(parts, a + b) == selected_parts(parts, a) + selected_parts(parts, b),
    decreases b.len(),
{
    if b.len() == 0 {
        assert(a + b =~= a);
        assert(selected_parts(parts, a) + Seq::<Seq<char>>::empty() =~= selected_parts(parts, a));
    } else {
        lemma_selected_parts_concat(parts, a, b.drop_last());
        assert((a + b).drop_last() =~= a + b.drop_last());
        assert((a + b).last() == b.last());
        let f = b.last();
        if 1 <= f <= parts.len() {
            assert(selected_parts(parts, a) + selected_parts(parts, b.drop_last()).push(parts[f
                - 1]) =~= (selected_parts(parts, a) + selected_parts(parts, b.drop_last())).push(
                parts[f - 1],
            ));
        }
    }
}

/// The fields of `line` that `fields` lists (counting from 1), joined with
/// the delimiter; fields past the end of the line are left out.
pub fn cut_line(line: &str, delimiter: char, fields: &[usize]) -> (r: String)
    requires
        forall|i: int| 0 <= i < fields@.len() ==> fields@[i] >= 1,
    ensures
        r@ == join_with(
            selected_parts(split_by(line@, delimiter_separator(delimiter)), fields@),
            delimiter,
        ),
{
    let chars = str_chars(line);
    let parts = split_line(&chars, delimiter);
    let ghost ps = views(parts@);
    let mut out: Vec<char> = Vec::new();
    let mut count: usize = 0;
    let mut i: usize = 0;
    assert(fields@.take(0) =~= Seq::<usize>::empty());
    while i < fields.len()
        invariant
            i <= fields.len(),
            ps == views(parts@),
            forall|j: int| 0 <= j < fields@.len() ==> fields@[j] >= 1,
            out@ == join_with(selected_parts(ps, fields@.take(i as int)), delimiter),
            count == selected_parts(ps, fields@.take(i as int)).len(),
            count <= i,
        decreases fields.len() - i,
    {
        let f = fields[i];
        let ghost prev = selected_parts(ps, fields@.take(i as int));
        let ghost t = fields@.take(i + 1);
        assert(t.drop_last() =~= fields@.take(i as int));
        assert(t.last() == f);
        if f - 1 < parts.len() {
            let part = &parts[f - 1];
            assert(part@ == ps[f - 1]);
            if count > 0 {
                out.push(delimiter);
            }
            let ghost base = out@;
            let mut k: usize = 0;
            while k < part.len()
                invariant
                    k <= part.len(),
                    out@ == base + part@.take(k as int),
                decreases part.len() - k,
            {
                out.push(part[k]);
                k = k + 1;
                assert(out@ =~= base + part@.take(k as int));
            }
            assert(part@.take(part.len() as int) =~= part@);
            proof {
                let q = prev.push(ps[f - 1]);
                assert(selected_parts(ps, t) == q);
                assert(q.drop_last() =~= prev);
                if prev.len() == 0 {
                    assert(out@ =~= join_with(q, delimiter));
                } else {
                    assert(out@ =~= join_with(q, delimiter));
                }
            }
            count = count + 1;
        }
        i = i + 1;
    }
    assert(fields@.take(fields.len() as int) =~= fields@);
    chars_to_string(&out)
}


proof fn lemma_join_update_last(ps: Seq<Seq<char>>, d: char, c: char)
    requires
        ps.len() >= 1,
    ensures
        join_with(ps.update(ps.len() - 1, ps.last().push(c)), d) == join_with(ps, d).push(c),
{
    let qs = ps.update(ps.len() - 1, ps.last().push(c));
    if ps.len() == 1 {
    } else {
        assert(qs.drop_last() =~= ps.drop_last());
        assert(join_with(ps, d) == join_with(ps.drop_last(), d).push(d) + ps.last());
        assert(join_with(qs, d) =~= join_with(ps, d).push(c));
    }
}

proof fn lemma_join_split(s: Seq<char>, d: char)
    ensures
        join_with(split_by(s, delimiter_separator(d)), d) == s,
    decreases s.len(),
{
    let sep = delimiter_separator(d);
    if s.len() == 0 {
        assert(join_with(seq![seq![]], d) =~= s);
    } else {
        let p = split_by(s.drop_last(), sep);
        lemma_join_split(s.drop_last(), d);
        lemma_split_nonempty(s.drop_last(), sep);
        if s.last() == d {
            let q = p.push(seq![]);
            assert(q.drop_last() =~= p);
            assert(join_with(q, d) =~= s.drop_last().push(d));
            assert(s =~= s.drop_last().push(s.last()));
        } else {
            lemma_join_update_last(p, d, s.last());
            assert(s =~= s.drop_last().push(s.last()));
        }
    }
}

proof fn lemma_select_prefix(parts: Seq<Seq<char>>, fields: Seq<usize>, k: int)
    requires
        0 <= k <= fields.len(),
        fields.len() == parts.len(),
        forall|i: int| 0 <= i < fields.len() ==> fields[i] == i + 1,
    ensures
        selected_parts(parts, fields.take(k)) == parts.take(k),
    decreases k,
{
    if k == 0 {
        assert(fields.take(0) =~= Seq::<usize>::empty());
        assert(parts.take(0) =~= Seq::<Seq<char>>::empty());
    } else {
        lemma_select_prefix(parts, fields, k - 1);
        assert(fields.take(k).drop_last() =~= fields.take(k - 1));
        assert(parts.take(k) =~= parts.take(k - 1).push(parts[k - 1]));
    }
}

/// Cutting a line at the delimiter and selecting every field in order gives
/// the line back.
pub proof fn lemma_cut_all_fields(line: Seq<char>, d: char, fields: Seq<usize>)
    requires
        fields.len() == split_by(line, delimiter_separator(d)).len(),
        forall|i: int| 0 <= i < fields.len() ==> fields[i] == i + 1,
    ensures
        join_with(selected_parts(split_by(line, delimiter_separator(d)), fields), d) == line,
{
    let parts = split_by(line, delimiter_separator(d));
    lemma_select_prefix(parts, fields, fields.len() as int);
    assert(fields.take(fields.len() as int) =~= fields);
    assert(parts.take(parts.len() as int) =~= parts);
    lemma_join_split(line, d);
}

} // verus!
