//! Byte-string utilities shared by the lease parser and the control loops.
//!
//! All controller text (lease files, probe output, addresses) is handled as
//! bytes. Whitespace handling matches how `char::is_whitespace` behaves on
//! ASCII text, which is the alphabet of lease files and probe output.

use vstd::prelude::*;

verus! {

/// ASCII whitespace: space, tab, line feed, vertical tab, form feed,
/// carriage return.
pub open spec fn is_space(b: u8) -> bool {
    b == 32 || (9 <= b && b <= 13)
}

/// Executable test for [`is_space`].
pub fn space(b: u8) -> (r: bool)
    ensures
        r == is_space(b),
{
    b == 32 || (9 <= b && b <= 13)
}

/// Length of the leading run of non-space bytes.
pub open spec fn token_len(s: Seq<u8>) -> nat
    decreases s.len(),
{
    if s.len() == 0 || is_space(s[0]) {
        0
    } else {
        (1 + token_len(s.skip(1))) as nat
    }
}

pub proof fn lemma_token_len_le(s: Seq<u8>)
    ensures
        token_len(s) <= s.len(),
    decreases s.len(),
{
    if s.len() == 0 || is_space(s[0]) {
    } else {
        lemma_token_len_le(s.skip(1));
    }
}

/// `token_len` is exactly the position of the first space (or the length).
pub proof fn lemma_token_len_exact(s: Seq<u8>, k: int)
    requires
        0 <= k <= s.len(),
        forall|m: int| 0 <= m < k ==> !is_space(s[m]),
        k == s.len() || is_space(s[k]),
    ensures
        token_len(s) == k,
    decreases k,
{
    if k == 0 {
    } else {
        lemma_token_len_exact(s.skip(1), k - 1);
    }
}

/// The whitespace-separated tokens of a line, in order.
pub open spec fn tokens_of(s: Seq<u8>) -> Seq<Seq<u8>>
    decreases s.len(),
    via tokens_of_decreases
{
    if s.len() == 0 {
        Seq::empty()
    } else if is_space(s[0]) {
        tokens_of(s.skip(1))
    } else {
        seq![s.take(token_len(s) as int)] + tokens_of(s.skip(token_len(s) as int))
    }
}

#[via_fn]
proof fn tokens_of_decreases(s: Seq<u8>) {
    lemma_token_len_le(s);
}

/// The element-wise views of a sequence of byte vectors.
pub open spec fn views_of(ts: Seq<Vec<u8>>) -> Seq<Seq<u8>> {
    ts.map_values(|t: Vec<u8>| t@)
}

/// Split a line into its whitespace-separated tokens.
pub fn tokenize(line: &Vec<u8>) -> (toks: Vec<Vec<u8>>)
    ensures
        views_of(toks@) == tokens_of(line@),
{
    let mut toks: Vec<Vec<u8>> = Vec::new();
    let mut i: usize = 0;
    proof {
        assert(line@.skip(0) =~= line@);
        assert(views_of(Seq::<Vec<u8>>::empty()) + tokens_of(line@) =~= tokens_of(line@));
    }
    while i < line.len()
        invariant
            i <= line.len(),
            tokens_of(line@) == views_of(toks@) + tokens_of(line@.skip(i as int)),
        decreases line.len() - i,
    {
        if space(line[i]) {
            proof {
                assert(line@.skip(i as int).skip(1) =~= line@.skip(i + 1));
            }
            i = i + 1;
        } else {
            let ghost start: int = i as int;
            let mut tok: Vec<u8> = Vec::new();
            while i < line.len() && !space(line[i])
                invariant
                    0 <= start <= i <= line.len(),
                    tok@ == line@.subrange(start, i as int),
                    forall|m: int| start <= m < i ==> !is_space(line@[m]),
                decreases line.len() - i,
            {
                let b = line[i];
                proof {
                    assert(b == line@[i as int]);
                    assert(line@.subrange(start, i as int).push(b) =~= line@.subrange(
                        start,
                        (i + 1) as int,
                    ));
                }
                tok.push(b);
                i = i + 1;
            }
            proof {
                let rest = line@.skip(start);
                lemma_token_len_exact(rest, i - start);
                assert(rest.take(i - start) =~= line@.subrange(start, i as int));
                assert(rest.skip(i - start) =~= line@.skip(i as int));
                assert(views_of(toks@.push(tok)) =~= views_of(toks@).push(tok@));
                assert(views_of(toks@).push(tok@) + tokens_of(line@.skip(i as int))
                    =~= views_of(toks@) + (seq![tok@] + tokens_of(line@.skip(i as int))));
            }
            toks.push(tok);
        }
    }
    proof {
        assert(line@.skip(line@.len() as int) =~= Seq::<u8>::empty());
        assert(views_of(toks@) + tokens_of(Seq::<u8>::empty()) =~= views_of(toks@));
    }
    toks
}

/// Copy of the byte range `[a, b)` of `s`.
pub fn subvec(s: &Vec<u8>, a: usize, b: usize) -> (r: Vec<u8>)
    requires
        a <= b <= s.len(),
    ensures
        r@ == s@.subrange(a as int, b as int),
{
    let mut r: Vec<u8> = Vec::new();
    let mut i: usize = a;
    proof {
        assert(r@ =~= s@.subrange(a as int, a as int));
    }
    while i < b
        invariant
            a <= i <= b <= s.len(),
            r@ == s@.subrange(a as int, i as int),
        decreases b - i,
    {
        let x = s[i];
        proof {
            assert(s@.subrange(a as int, i as int).push(x) =~= s@.subrange(
                a as int,
                (i + 1) as int,
            ));
        }
        r.push(x);
        i = i + 1;
    }
    r
}

/// The value of an optional byte string.
pub open spec fn view_opt(o: Option<Vec<u8>>) -> Option<Seq<u8>> {
    match o {
        Some(v) => Some(v@),
        None => None,
    }
}

/// A fresh copy of a byte string.
pub fn copy_bytes(s: &Vec<u8>) -> (r: Vec<u8>)
    ensures
        r@ == s@,
{
    let r = subvec(s, 0, s.len());
    proof {
        assert(s@.subrange(0, s@.len() as int) =~= s@);
    }
    r
}

/// Equality of two byte strings.
pub fn bytes_eq(a: &Vec<u8>, b: &Vec<u8>) -> (r: bool)
    ensures
        r == (a@ == b@),
{
    if a.len() != b.len() {
        return false;
    }
    let mut i: usize = 0;
    while i < a.len()
        invariant
            i <= a.len(),
            a.len() == b.len(),
            forall|m: int| 0 <= m < i ==> a@[m] == b@[m],
        decreases a.len() - i,
    {
        if a[i] != b[i] {
            return false;
        }
        i = i + 1;
    }
    proof {
        assert(a@ =~= b@);
    }
    true
}

/// Number of leading space bytes.
pub open spec fn lead_spaces(s: Seq<u8>) -> nat
    decreases s.len(),
{
    if s.len() == 0 || !is_space(s[0]) {
        0
    } else {
        (1 + lead_spaces(s.skip(1))) as nat
    }
}

/// Number of trailing space bytes.
pub open spec fn tail_spaces(s: Seq<u8>) -> nat
    decreases s.len(),
{
    if s.len() == 0 || !is_space(s[s.len() - 1]) {
        0
    } else {
        (1 + tail_spaces(s.take(s.len() - 1))) as nat
    }
}

/// `s` with leading and trailing spaces removed.
pub open spec fn trim_of(s: Seq<u8>) -> Seq<u8> {
    if lead_spaces(s) == s.len() {
        Seq::empty()
    } else {
        s.subrange(lead_spaces(s) as int, s.len() - tail_spaces(s))
    }
}

proof fn lemma_lead_spaces_exact(s: Seq<u8>, k: int)
    requires
        0 <= k <= s.len(),
        forall|m: int| 0 <= m < k ==> is_space(s[m]),
        k == s.len() || !is_space(s[k]),
    ensures
        lead_spaces(s) == k,
    decreases k,
{
    if k == 0 {
    } else {
        lemma_lead_spaces_exact(s.skip(1), k - 1);
    }
}

proof fn lemma_tail_spaces_exact(s: Seq<u8>, k: int)
    requires
        0 <= k <= s.len(),
        forall|m: int| s.len() - k <= m < s.len() ==> is_space(s[m]),
        k == s.len() || !is_space(s[s.len() - k - 1]),
    ensures
        tail_spaces(s) == k,
    decreases k,
{
    if k == 0 {
    } else {
        lemma_tail_spaces_exact(s.take(s.len() - 1), k - 1);
    }
}

/// Remove leading and trailing ASCII whitespace.
pub fn trim(s: &Vec<u8>) -> (r: Vec<u8>)
    ensures
        r@ == trim_of(s@),
{
    let mut a: usize = 0;
    while a < s.len() && space(s[a])
        invariant
            a <= s.len(),
            forall|m: int| 0 <= m < a ==> is_space(s@[m]),
        decreases s.len() - a,
    {
        a = a + 1;
    }
    proof {
        lemma_lead_spaces_exact(s@, a as int);
    }
    if a == s.len() {
        Vec::new()
    } else {
        let mut b: usize = s.len();
        while space(s[b - 1])
            invariant
                a < b <= s.len(),
                !is_space(s@[a as int]),
                forall|m: int| b <= m < s.len() ==> is_space(s@[m]),
            decreases b,
        {
            b = b - 1;
        }
        proof {
            lemma_tail_spaces_exact(s@, s@.len() - b);
        }
        subvec(s, a, b)
    }
}

/// Length of the prefix of `s` before the first `sep` byte.
pub open spec fn prefix_to(s: Seq<u8>, sep: u8) -> nat
    decreases s.len(),
{
    if s.len() == 0 || s[0] == sep {
        0
    } else {
        (1 + prefix_to(s.skip(1), sep)) as nat
    }
}

pub proof fn lemma_prefix_to_le(s: Seq<u8>, sep: u8)
    ensures
        prefix_to(s, sep) <= s.len(),
    decreases s.len(),
{
    if s.len() == 0 || s[0] == sep {
    } else {
        lemma_prefix_to_le(s.skip(1), sep);
    }
}

proof fn lemma_prefix_to_exact(s: Seq<u8>, sep: u8, k: int)
    requires
        0 <= k <= s.len(),
        forall|m: int| 0 <= m < k ==> s[m] != sep,
        k == s.len() || s[k] == sep,
    ensures
        prefix_to(s, sep) == k,
    decreases k,
{
    if k == 0 {
    } else {
        lemma_prefix_to_exact(s.skip(1), sep, k - 1);
    }
}

/// The segments of `s` between `sep` bytes; empty segments are kept, and
/// there is always at least one segment.
pub open spec fn split_on(s: Seq<u8>, sep: u8) -> Seq<Seq<u8>>
    decreases s.len(),
    via split_on_decreases
{
    if prefix_to(s, sep) == s.len() {
        seq![s]
    } else {
        seq![s.take(prefix_to(s, sep) as int)] + split_on(
            s.skip(prefix_to(s, sep) as int + 1),
            sep,
        )
    }
}

#[via_fn]
proof fn split_on_decreases(s: Seq<u8>, sep: u8) {
    lemma_prefix_to_le(s, sep);
}

/// Split `s` at each occurrence of `sep`.
pub fn split_on_byte(s: &Vec<u8>, sep: u8) -> (parts: Vec<Vec<u8>>)
    ensures
        views_of(parts@) == split_on(s@, sep),
{
    let mut parts: Vec<Vec<u8>> = Vec::new();
    let mut i: usize = 0;
    proof {
        assert(s@.skip(0) =~= s@);
        assert(views_of(Seq::<Vec<u8>>::empty()) + split_on(s@, sep) =~= split_on(s@, sep));
    }
    loop
        invariant_except_break
            i <= s.len(),
            split_on(s@, sep) == views_of(parts@) + split_on(s@.skip(i as int), sep),
        ensures
            views_of(parts@) == split_on(s@, sep),
        decreases s.len() - i,
    {
        let mut j: usize = i;
        while j < s.len() && s[j] != sep
            invariant
                i <= j <= s.len(),
                forall|m: int| i <= m < j ==> s@[m] != sep,
            decreases s.len() - j,
        {
            j = j + 1;
        }
        let seg = subvec(s, i, j);
        proof {
            let rest = s@.skip(i as int);
            lemma_prefix_to_exact(rest, sep, j - i);
            assert(rest.take(j - i) =~= s@.subrange(i as int, j as int));
            assert(views_of(parts@.push(seg)) =~= views_of(parts@).push(seg@));
        }
        parts.push(seg);
        if j == s.len() {
            proof {
                let rest = s@.skip(i as int);
                assert(views_of(parts@) =~= views_of(parts@.drop_last()) + seq![seg@]);
                assert(views_of(parts@.drop_last()) + split_on(rest, sep) =~= views_of(
                    parts@,
                ));
            }
            break;
        }
        proof {
            let rest = s@.skip(i as int);
            assert(rest.skip(j - i + 1) =~= s@.skip(j + 1));
            assert(views_of(parts@) =~= views_of(parts@.drop_last()).push(seg@));
            assert(views_of(parts@.drop_last()) + (seq![seg@] + split_on(
                s@.skip(j + 1),
                sep,
            )) =~= views_of(parts@) + split_on(s@.skip(j + 1), sep));
        }
        i = j + 1;
    }
    parts
}

/// `filter` over a sequence extended by one element.
pub proof fn lemma_filter_push<A>(s: Seq<A>, pred: spec_fn(A) -> bool, x: A)
    ensures
        s.push(x).filter(pred) == if pred(x) {
            s.filter(pred).push(x)
        } else {
            s.filter(pred)
        },
{
    reveal(Seq::filter);
    assert(s.push(x).drop_last() =~= s);
    assert(s.push(x).last() == x);
}

/// A line with one trailing carriage return removed.
pub open spec fn strip_cr(l: Seq<u8>) -> Seq<u8> {
    if l.len() > 0 && l[l.len() - 1] == 13 {
        l.drop_last()
    } else {
        l
    }
}

/// The lines of a text, split at line feeds, each without its terminator
/// and without a trailing carriage return; a final line ending is optional.
pub open spec fn lines_of(s: Seq<u8>) -> Seq<Seq<u8>> {
    if s.len() == 0 {
        Seq::empty()
    } else {
        let parts = split_on(s, 10);
        let kept = if s[s.len() - 1] == 10 {
            parts.drop_last()
        } else {
            parts
        };
        kept.map_values(|l: Seq<u8>| strip_cr(l))
    }
}

/// Split a text into its lines.
pub fn split_lines(content: &Vec<u8>) -> (lines: Vec<Vec<u8>>)
    ensures
        views_of(lines@) == lines_of(content@),
{
    if content.len() == 0 {
        let lines: Vec<Vec<u8>> = Vec::new();
        proof {
            assert(views_of(lines@) =~= lines_of(content@));
        }
        return lines;
    }
    let mut parts = split_on_byte(content, 10);
    if content[content.len() - 1] == 10 {
        proof {
            assert(split_on(content@, 10).len() >= 1);
        }
        parts.pop();
        proof {
            assert(views_of(parts@) =~= views_of(parts@.push(parts@.last())).drop_last());
        }
    }
    let ghost kept: Seq<Seq<u8>> = views_of(parts@);
    let mut out: Vec<Vec<u8>> = Vec::new();
    let mut i: usize = 0;
    proof {
        assert(views_of(out@) =~= kept.take(0).map_values(|l: Seq<u8>| strip_cr(l)));
    }
    while i < parts.len()
        invariant
            i <= parts.len(),
            kept == views_of(parts@),
            views_of(out@) == kept.take(i as int).map_values(|l: Seq<u8>| strip_cr(l)),
        decreases parts.len() - i,
    {
        let p = &parts[i];
        let stripped = if p.len() > 0 && p[p.len() - 1] == 13 {
            subvec(p, 0, p.len() - 1)
        } else {
            subvec(p, 0, p.len())
        };
        proof {
            assert(p@.subrange(0, p@.len() as int) =~= p@);
            assert(p@.len() > 0 ==> p@.subrange(0, p@.len() - 1) =~= p@.drop_last());
            assert(stripped@ == strip_cr(kept[i as int]));
            assert(views_of(out@.push(stripped)) =~= views_of(out@).push(stripped@));
            assert(kept.take(i as int).map_values(|l: Seq<u8>| strip_cr(l)).push(
                strip_cr(kept[i as int]),
            ) =~= kept.take(i + 1).map_values(|l: Seq<u8>| strip_cr(l)));
        }
        out.push(stripped);
        i = i + 1;
    }
    proof {
        assert(kept.take(parts@.len() as int) =~= kept);
        assert(views_of(out@) =~= lines_of(content@));
    }
    out
}

/// The given strings joined with the separator byte.
pub open spec fn join_with(ts: Seq<Seq<u8>>, sep: u8) -> Seq<u8>
    decreases ts.len(),
{
    if ts.len() == 0 {
        Seq::empty()
    } else if ts.len() == 1 {
        ts[0]
    } else {
        join_with(ts.drop_last(), sep) + seq![sep] + ts.last()
    }
}

/// The given strings joined with single spaces.
pub open spec fn join_sp(ts: Seq<Seq<u8>>) -> Seq<u8> {
    join_with(ts, 32)
}

/// Join the elements of `ts` from index `from` on with the separator.
pub fn join_from(ts: &Vec<Vec<u8>>, from: usize, sep: u8) -> (r: Vec<u8>)
    requires
        from <= ts.len(),
    ensures
        r@ == join_with(views_of(ts@).skip(from as int), sep),
{
    let mut r: Vec<u8> = Vec::new();
    let mut i: usize = from;
    proof {
        assert(r@ =~= join_with(views_of(ts@).subrange(from as int, from as int), sep));
    }
    while i < ts.len()
        invariant
            from <= i <= ts.len(),
            r@ == join_with(views_of(ts@).subrange(from as int, i as int), sep),
        decreases ts.len() - i,
    {
        let ghost pre = views_of(ts@).subrange(from as int, i as int);
        let ghost post = views_of(ts@).subrange(from as int, i + 1);
        if i > from {
            r.push(sep);
        }
        let elem = &ts[i];
        r.extend_from_slice(elem.as_slice());
        proof {
            assert(post.drop_last() =~= pre);
            assert(post.last() == ts@[i as int]@);
            if i == from {
                assert(Seq::<u8>::empty() + ts@[i as int]@ =~= ts@[i as int]@);
                assert(post.len() == 1);
            } else {
                assert(r@ =~= join_with(pre, sep) + seq![sep] + ts@[i as int]@);
            }
        }
        i = i + 1;
    }
    proof {
        assert(views_of(ts@).subrange(from as int, ts@.len() as int) =~= views_of(
            ts@,
        ).skip(from as int));
    }
    r
}

/// An ASCII decimal digit.
pub open spec fn is_digit(b: u8) -> bool {
    48 <= b && b <= 57
}

pub open spec fn all_digits(s: Seq<u8>) -> bool {
    forall|i: int| 0 <= i < s.len() ==> is_digit(s[i])
}

/// The value of a string of decimal digits.
pub open spec fn digits_val(s: Seq<u8>) -> int
    decreases s.len(),
{
    if s.len() == 0 {
        0
    } else {
        digits_val(s.drop_last()) * 10 + (s.last() - 48)
    }
}

/// The value denoted by a decimal integer literal: an optional sign
/// followed by at least one digit.
pub open spec fn int_literal_value(s: Seq<u8>) -> Option<int> {
    if s.len() > 0 && (s[0] == 43 || s[0] == 45) {
        if s.len() > 1 && all_digits(s.skip(1)) {
            Some(
                if s[0] == 45 {
                    -digits_val(s.skip(1))
                } else {
                    digits_val(s.skip(1))
                },
            )
        } else {
            None
        }
    } else if s.len() > 0 && all_digits(s) {
        Some(digits_val(s))
    } else {
        None
    }
}

/// Decimal parsing into `i32`: the literal's value if it is well formed
/// and in range, and nothing otherwise.
pub open spec fn parse_i32_of(s: Seq<u8>) -> Option<i32> {
    match int_literal_value(s) {
        Some(v) => if i32::MIN <= v <= i32::MAX {
            Some(v as i32)
        } else {
            None
        },
        None => None,
    }
}

proof fn lemma_digits_val_nonneg(s: Seq<u8>)
    requires
        all_digits(s),
    ensures
        digits_val(s) >= 0,
    decreases s.len(),
{
    if s.len() == 0 {
    } else {
        assert(all_digits(s.drop_last()));
        lemma_digits_val_nonneg(s.drop_last());
    }
}

proof fn lemma_digits_val_prefix_le(s: Seq<u8>, k: int)
    requires
        all_digits(s),
        0 <= k <= s.len(),
    ensures
        digits_val(s.take(k)) <= digits_val(s),
    decreases s.len() - k,
{
    if k == s.len() {
        assert(s.take(k) =~= s);
    } else {
        assert(all_digits(s.take(k + 1)));
        assert(s.take(k + 1).drop_last() =~= s.take(k));
        lemma_digits_val_nonneg(s.take(k));
        lemma_digits_val_prefix_le(s, k + 1);
    }
}

/// Parse an ASCII decimal integer, rejecting malformed or out-of-range text.
pub fn parse_i32(s: &Vec<u8>) -> (r: Option<i32>)
    ensures
        r == parse_i32_of(s@),
{
    if s.len() == 0 {
        return None;
    }
    let has_sign = s[0] == 43 || s[0] == 45;
    let neg = s[0] == 45;
    if has_sign && s.len() == 1 {
        return None;
    }
    let start: usize = if has_sign {
        1
    } else {
        0
    };
    let ghost digits: Seq<u8> = if has_sign {
        s@.skip(1)
    } else {
        s@
    };
    let mut acc: i64 = 0;
    let mut i: usize = start;
    proof {
        assert(s@.subrange(start as int, start as int) =~= Seq::<u8>::empty());
    }
    while i < s.len()
        invariant
            start <= i <= s.len(),
            start == 0 || start == 1,
            s@.len() > start,
            neg == (s@[0] == 45),
            has_sign == (s@[0] == 43 || s@[0] == 45),
            start == if has_sign {
                1int
            } else {
                0int
            },
            digits == (if has_sign {
                s@.skip(1)
            } else {
                s@
            }),
            forall|m: int| start <= m < i ==> is_digit(s@[m]),
            0 <= acc <= 0x8000_0000,
            acc == digits_val(s@.subrange(start as int, i as int)),
        decreases s.len() - i,
    {
        let b = s[i];
        if !(48 <= b && b <= 57) {
            proof {
                if has_sign {
                    assert(digits[i - 1] == s@[i as int]);
                    assert(!all_digits(digits));
                } else {
                    assert(!all_digits(s@));
                }
            }
            return None;
        }
        let d: i64 = (b - 48) as i64;
        let next: i64 = acc * 10 + d;
        proof {
            assert(s@.subrange(start as int, i + 1).drop_last() =~= s@.subrange(
                start as int,
                i as int,
            ));
            assert(s@.subrange(start as int, i + 1).last() == s@[i as int]);
        }
        if next > 0x8000_0000 {
            proof {
                let scanned = i + 1 - start;
                assert(digits.take(scanned) =~= s@.subrange(start as int, i + 1));
                if all_digits(digits) {
                    lemma_digits_val_prefix_le(digits, scanned);
                    assert(digits_val(digits) > 0x8000_0000);
                }
            }
            return None;
        }
        acc = next;
        i = i + 1;
    }
    proof {
        assert(s@.subrange(start as int, s@.len() as int) =~= digits);
        assert(all_digits(digits));
    }
    if neg {
        Some((-acc) as i32)
    } else {
        if acc > 0x7fff_ffff {
            return None;
        }
        Some(acc as i32)
    }
}

/// The decimal rendering of a nonnegative number.
pub open spec fn decimal_of(n: int) -> Seq<u8>
    decreases n,
{
    if n < 10 {
        seq![(48 + (if n >= 0 {
            n
        } else {
            0
        })) as u8]
    } else {
        decimal_of(n / 10).push((48 + n % 10) as u8)
    }
}

} // verus!
