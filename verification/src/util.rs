//! Small shared helpers: digit-string arithmetic, lexicographic order on
//! character sequences, building strings inside verified code, and the
//! parsing of the `<hours>h <minutes>m` duration notation.
use crate::dates::Date;
use crate::dates::Duration;
use crate::Error;
use vstd::prelude::*;
use vstd::std_specs::iter::IteratorSpec;

verus! {

/// Relies on `String::push`: appends exactly the given character.
pub assume_specification[ String::push ](s: &mut String, ch: char)
    ensures
        final(s)@ == old(s)@.push(ch),
;

/// The decimal digits.
pub open spec fn is_digit(c: char) -> bool {
    48 <= (c as u32) <= 57
}

/// The numeric value of a decimal digit.
pub open spec fn digit_val(c: char) -> int {
    (c as u32) - 48
}

/// The numeric value of a sequence of decimal digits, most significant
/// first.
pub open spec fn digits_val(s: Seq<char>) -> int
    decreases s.len(),
{
    if s.len() == 0 {
        0
    } else {
        digits_val(s.drop_last()) * 10 + digit_val(s.last())
    }
}

/// Whether every character of `s` in `[from, to)` is a decimal digit.
pub open spec fn all_digits_range(s: Seq<char>, from: int, to: int) -> bool {
    forall|i: int| from <= i < to ==> is_digit(#[trigger] s[i])
}

/// A digit string has a non-negative value.
pub proof fn lemma_digits_val_nonneg(s: Seq<char>)
    requires
        all_digits_range(s, 0, s.len() as int),
    ensures
        digits_val(s) >= 0,
    decreases s.len(),
{
    if s.len() > 0 {
        assert(all_digits_range(s.drop_last(), 0, s.drop_last().len() as int));
        lemma_digits_val_nonneg(s.drop_last());
    }
}

/// Extending a digit string to the right never shrinks its value (given a
/// non-negative start).
pub proof fn lemma_digits_val_extend(s: Seq<char>, j: int, k: int)
    requires
        0 <= j <= k <= s.len(),
        digits_val(s.subrange(0, j)) >= 0,
        all_digits_range(s, j, k),
    ensures
        digits_val(s.subrange(0, k)) >= digits_val(s.subrange(0, j)),
    decreases k - j,
{
    if k > j {
        lemma_digits_val_extend(s, j, k - 1);
        let p = s.subrange(0, k);
        assert(p.drop_last() =~= s.subrange(0, k - 1));
        assert(p.last() == s[k - 1]);
    }
}

/// The characters of a string, as a vector.
pub fn chars_vec(s: &str) -> (v: Vec<char>)
    ensures
        v@ == s@,
{
    let mut it = s.chars();
    let mut v: Vec<char> = Vec::new();
    proof {
        assert(v@ + it.remaining() =~= s@);
    }
    loop
        invariant
            it.obeys_prophetic_iter_laws(),
            it.decrease() is Some,
            v@ + it.remaining() =~= s@,
        decreases it.decrease()->0,
    {
        let ghost prev = it.remaining();
        match it.next() {
            Some(c) => {
                proof {
                    assert(v@.push(c) + it.remaining() =~= v@ + prev);
                }
                v.push(c);
            },
            None => {
                proof {
                    assert(v@ =~= s@);
                }
                return v;
            },
        }
    }
}

/// The substring `v[from..to]`, as an owned string.
pub fn string_from_range(v: &Vec<char>, from: usize, to: usize) -> (s: String)
    requires
        from <= to <= v.len(),
    ensures
        s@ == v@.subrange(from as int, to as int),
{
    let mut s = String::new();
    let mut i: usize = from;
    while i < to
        invariant
            from <= i <= to,
            s@ == v@.subrange(from as int, i as int),
        decreases to - i,
    {
        s.push(v[i]);
        assert(v@.subrange(from as int, i + 1 as int) =~= v@.subrange(
            from as int,
            i as int,
        ).push(v@[i as int]));
        i = i + 1;
    }
    s
}

/// The value of the digit run `v[from..to]`, for runs short enough not to
/// overflow.
pub fn digits_value(v: &Vec<char>, from: usize, to: usize) -> (r: u32)
    requires
        from <= to <= v.len(),
        to - from <= 8,
        all_digits_range(v@, from as int, to as int),
    ensures
        r == digits_val(v@.subrange(from as int, to as int)),
        r < 100000000,
    {
    let mut r: u32 = 0;
    let mut i: usize = from;
    while i < to
        invariant
            from <= i <= to,
            r == digits_val(v@.subrange(from as int, i as int)),
            r < pow10((i - from) as nat),
        decreases to - i,
    {
        proof {
            assert(v@.subrange(from as int, i + 1 as int).drop_last() =~= v@.subrange(
                from as int,
                i as int,
            ));
            assert(v@.subrange(from as int, i + 1 as int).last() == v@[i as int]);
            lemma_pow10_le_e8((i - from) as nat);
            lemma_pow10_le_e8((i + 1 - from) as nat);
        }
        let c = v[i];
        r = r * 10 + (c as u32 - 48);
        i = i + 1;
    }
    proof {
        lemma_pow10_le_e8((to - from) as nat);
    }
    r
}

/// Ten to the given power.
pub open spec fn pow10(n: nat) -> int
    decreases n,
{
    if n == 0 {
        1
    } else {
        10 * pow10((n - 1) as nat)
    }
}

proof fn lemma_pow10_pos(n: nat)
    ensures
        pow10(n) >= 1,
    decreases n,
{
    if n > 0 {
        lemma_pow10_pos((n - 1) as nat);
    }
}

proof fn lemma_pow10_le_e8(n: nat)
    requires
        n <= 8,
    ensures
        pow10(n) <= 100000000,
    decreases n,
{
    reveal_with_fuel(pow10, 9);
    if n > 0 {
        lemma_pow10_le_e8((n - 1) as nat);
        lemma_pow10_pos((n - 1) as nat);
        if n < 8 {
            lemma_pow10_mono(n, 8);
        }
    }
}

proof fn lemma_pow10_mono(a: nat, b: nat)
    requires
        a <= b,
    ensures
        pow10(a) <= pow10(b),
    decreases b,
{
    if a < b {
        lemma_pow10_mono(a, (b - 1) as nat);
        lemma_pow10_pos((b - 1) as nat);
    }
}

/// Strict lexicographic order on character sequences, by code point.
pub open spec fn lex_lt(a: Seq<char>, b: Seq<char>) -> bool
    decreases a.len(),
{
    if b.len() == 0 {
        false
    } else if a.len() == 0 {
        true
    } else if (a[0] as u32) != (b[0] as u32) {
        (a[0] as u32) < (b[0] as u32)
    } else {
        lex_lt(a.drop_first(), b.drop_first())
    }
}

/// Of two distinct sequences, one is lexicographically smaller.
pub proof fn lemma_lex_trichotomy(a: Seq<char>, b: Seq<char>)
    requires
        !lex_lt(a, b),
        !lex_lt(b, a),
    ensures
        a =~= b,
    decreases a.len(),
{
    if a.len() == 0 || b.len() == 0 {
    } else {
        vstd::utf8::char_u32_cast(a[0], a[0] as u32);
        vstd::utf8::char_u32_cast(b[0], b[0] as u32);
        assert(a[0] == b[0]);
        lemma_lex_trichotomy(a.drop_first(), b.drop_first());
        assert(a.drop_first() =~= b.drop_first());
        assert(a.len() == b.len());
        assert forall|i: int| 0 <= i < a.len() implies a[i] == b[i] by {
            if i > 0 {
                assert(a[i] == a.drop_first()[i - 1]);
                assert(b[i] == b.drop_first()[i - 1]);
            }
        }
    }
}

/// Nothing is lexicographically smaller than itself.
pub proof fn lemma_lex_irreflexive(a: Seq<char>)
    ensures
        !lex_lt(a, a),
    decreases a.len(),
{
    if a.len() > 0 {
        lemma_lex_irreflexive(a.drop_first());
    }
}

/// Lexicographic order is transitive.
pub proof fn lemma_lex_transitive(a: Seq<char>, b: Seq<char>, c: Seq<char>)
    requires
        lex_lt(a, b),
        lex_lt(b, c),
    ensures
        lex_lt(a, c),
    decreases a.len(),
{
    if a.len() > 0 && b.len() > 0 && c.len() > 0 {
        if (a[0] as u32) == (b[0] as u32) && (b[0] as u32) == (c[0] as u32) {
            lemma_lex_transitive(a.drop_first(), b.drop_first(), c.drop_first());
        }
    }
}

/// Whether `a` comes strictly before `b` in lexicographic order.
pub fn str_lex_lt(a: &str, b: &str) -> (r: bool)
    ensures
        r == lex_lt(a@, b@),
{
    let av = chars_vec(a);
    let bv = chars_vec(b);
    let mut i: usize = 0;
    proof {
        assert(a@.skip(0) =~= a@);
        assert(b@.skip(0) =~= b@);
    }
    loop
        invariant
            av@ == a@,
            bv@ == b@,
            i <= av.len(),
            i <= bv.len(),
            lex_lt(a@, b@) == lex_lt(a@.skip(i as int), b@.skip(i as int)),
        decreases av.len() - i,
    {
        if i == av.len() {
            return i < bv.len();
        }
        if i == bv.len() {
            return false;
        }
        let ca = av[i];
        let cb = bv[i];
        if (ca as u32) == (cb as u32) {
            proof {
                assert(a@.skip(i as int)[0] == a@[i as int]);
                assert(b@.skip(i as int)[0] == b@[i as int]);
                assert(a@.skip(i as int).drop_first() =~= a@.skip(i + 1));
                assert(b@.skip(i as int).drop_first() =~= b@.skip(i + 1));
            }
            i = i + 1;
        } else {
            proof {
                assert(a@.skip(i as int)[0] == a@[i as int]);
                assert(b@.skip(i as int)[0] == b@[i as int]);
            }
            return (ca as u32) < (cb as u32);
        }
    }
}

/// The index of the first newline in `s`, or `s.len()` if there is none.
pub open spec fn first_nl(s: Seq<char>) -> int
    decreases s.len(),
{
    if s.len() == 0 {
        0
    } else if s[0] == '\n' {
        0
    } else {
        1 + first_nl(s.drop_first())
    }
}

/// `first_nl` names a newline position, or the length when no newline
/// occurs; nothing before it is a newline.
pub proof fn lemma_first_nl(s: Seq<char>)
    ensures
        0 <= first_nl(s) <= s.len(),
        first_nl(s) < s.len() ==> s[first_nl(s)] == '\n',
        forall|i: int| 0 <= i < first_nl(s) ==> s[i] != '\n',
    decreases s.len(),
{
    if s.len() > 0 && s[0] != '\n' {
        lemma_first_nl(s.drop_first());
        assert forall|i: int| 0 <= i < first_nl(s) implies s[i] != '\n' by {
            if i > 0 {
                assert(s.drop_first()[i - 1] == s[i]);
            }
        }
    }
}

/// The lines of a text, in order.  Every line keeps its terminating
/// newline; only a final line at end-of-text may lack one.  Text ending in
/// a newline yields no empty final line.
pub open spec fn spec_lines(s: Seq<char>) -> Seq<Seq<char>>
    decreases s.len(),
{
    if s.len() == 0 {
        Seq::empty()
    } else {
        let k = first_nl(s);
        if 0 <= k < s.len() {
            seq![s.take(k + 1)] + spec_lines(s.skip(k + 1))
        } else {
            seq![s]
        }
    }
}

/// The copy of `v[from..to]`.
pub fn subvec(v: &Vec<char>, from: usize, to: usize) -> (r: Vec<char>)
    requires
        from <= to <= v.len(),
    ensures
        r@ == v@.subrange(from as int, to as int),
{
    let mut r: Vec<char> = Vec::new();
    let mut i: usize = from;
    while i < to
        invariant
            from <= i <= to,
            r@ == v@.subrange(from as int, i as int),
        decreases to - i,
    {
        r.push(v[i]);
        proof {
            assert(v@.subrange(from as int, i + 1 as int) =~= v@.subrange(
                from as int,
                i as int,
            ).push(v@[i as int]));
        }
        i = i + 1;
    }
    r
}

/// The position of the first newline at or after `from`.
fn find_nl(v: &Vec<char>, from: usize) -> (r: usize)
    requires
        from <= v.len(),
    ensures
        from <= r <= v.len(),
        r - from == first_nl(v@.skip(from as int)),
{
    let mut j: usize = from;
    loop
        invariant
            from <= j <= v.len(),
            first_nl(v@.skip(from as int)) == (j - from) + first_nl(v@.skip(j as int)),
        decreases v.len() - j,
    {
        if j == v.len() {
            return j;
        }
        if v[j] == '\n' {
            assert(v@.skip(j as int)[0] == '\n');
            return j;
        }
        proof {
            assert(v@.skip(j as int)[0] == v@[j as int]);
            assert(v@.skip(j as int).drop_first() =~= v@.skip(j + 1));
        }
        j = j + 1;
    }
}

/// The text split into lines, as `spec_lines` describes.
pub fn split_lines(v: &Vec<char>) -> (r: Vec<Vec<char>>)
    ensures
        r@.len() == spec_lines(v@).len(),
        forall|i: int| 0 <= i < r@.len() ==> #[trigger] r@[i]@ == spec_lines(v@)[i],
{
    let mut r: Vec<Vec<char>> = Vec::new();
    let ghost mut lv: Seq<Seq<char>> = Seq::empty();
    let mut pos: usize = 0;
    proof {
        assert(v@.skip(0) =~= v@);
        assert(spec_lines(v@) =~= lv + spec_lines(v@));
    }
    while pos < v.len()
        invariant
            pos <= v.len(),
            lv.len() == r@.len(),
            forall|i: int| 0 <= i < r@.len() ==> #[trigger] r@[i]@ == lv[i],
            spec_lines(v@) == lv + spec_lines(v@.skip(pos as int)),
        decreases v.len() - pos,
    {
        let ghost rest = v@.skip(pos as int);
        let k = find_nl(v, pos);
        proof {
            lemma_first_nl(rest);
        }
        if k < v.len() {
            let line = subvec(v, pos, k + 1);
            proof {
                assert(rest.take(k + 1 - pos) =~= v@.subrange(pos as int, k + 1));
                assert(rest.skip(k + 1 - pos) =~= v@.skip(k + 1));
                assert(spec_lines(rest) == seq![line@] + spec_lines(v@.skip(k + 1)));
                assert((lv + seq![line@]) + spec_lines(v@.skip(k + 1)) =~= lv + spec_lines(rest));
                lv = lv + seq![line@];
            }
            r.push(line);
            pos = k + 1;
        } else {
            let line = subvec(v, pos, v.len());
            proof {
                assert(v@.subrange(pos as int, v@.len() as int) =~= rest);
                assert(first_nl(rest) == rest.len());
                assert(spec_lines(rest) == seq![rest]);
                assert(v@.skip(v@.len() as int) =~= Seq::<char>::empty());
                assert((lv + seq![line@]) + spec_lines(v@.skip(v@.len() as int)) =~= lv
                    + spec_lines(rest));
                lv = lv + seq![line@];
            }
            r.push(line);
            pos = v.len();
        }
    }
    proof {
        assert(v@.skip(pos as int) =~= Seq::<char>::empty());
        assert(spec_lines(v@) =~= lv);
    }
    r
}

/// The number of lines never exceeds the number of characters.
pub proof fn lemma_lines_count(s: Seq<char>)
    ensures
        spec_lines(s).len() <= s.len(),
    decreases s.len(),
{
    if s.len() > 0 {
        let k = first_nl(s);
        lemma_first_nl(s);
        if 0 <= k < s.len() {
            lemma_lines_count(s.skip(k + 1));
        }
    }
}

/// The index of the first occurrence of `c` in `s`, or `s.len()` if there
/// is none.
pub open spec fn first_occ(s: Seq<char>, c: char) -> int
    decreases s.len(),
{
    if s.len() == 0 {
        0
    } else if s[0] == c {
        0
    } else {
        1 + first_occ(s.drop_first(), c)
    }
}

/// `first_occ` names an occurrence, or the length when there is none;
/// nothing before it is `c`.
pub proof fn lemma_first_occ(s: Seq<char>, c: char)
    ensures
        0 <= first_occ(s, c) <= s.len(),
        first_occ(s, c) < s.len() ==> s[first_occ(s, c)] == c,
        forall|i: int| 0 <= i < first_occ(s, c) ==> s[i] != c,
    decreases s.len(),
{
    if s.len() > 0 && s[0] != c {
        lemma_first_occ(s.drop_first(), c);
        assert forall|i: int| 0 <= i < first_occ(s, c) implies s[i] != c by {
            if i > 0 {
                assert(s.drop_first()[i - 1] == s[i]);
            }
        }
    }
}

/// The length of the run of `c` at the start of `s`.
pub open spec fn span_of(s: Seq<char>, c: char) -> int
    decreases s.len(),
{
    if s.len() == 0 {
        0
    } else if s[0] != c {
        0
    } else {
        1 + span_of(s.drop_first(), c)
    }
}

/// The position of the first occurrence of `c` at or after `from`.
pub fn find_char(v: &Vec<char>, from: usize, c: char) -> (r: usize)
    requires
        from <= v.len(),
    ensures
        from <= r <= v.len(),
        r - from == first_occ(v@.skip(from as int), c),
{
    let mut j: usize = from;
    loop
        invariant
            from <= j <= v.len(),
            first_occ(v@.skip(from as int), c) == (j - from) + first_occ(v@.skip(j as int), c),
        decreases v.len() - j,
    {
        if j == v.len() {
            return j;
        }
        if (v[j] as u32) == (c as u32) {
            proof {
                vstd::utf8::char_u32_cast(v@[j as int], v@[j as int] as u32);
                vstd::utf8::char_u32_cast(c, c as u32);
                assert(v@.skip(j as int)[0] == c);
            }
            return j;
        }
        proof {
            assert(v@.skip(j as int)[0] == v@[j as int]);
            assert(v@.skip(j as int).drop_first() =~= v@.skip(j + 1));
        }
        j = j + 1;
    }
}

/// The position of the first character at or after `from` that is not
/// `c`.
pub fn skip_char_run(v: &Vec<char>, from: usize, c: char) -> (r: usize)
    requires
        from <= v.len(),
    ensures
        from <= r <= v.len(),
        r - from == span_of(v@.skip(from as int), c),
{
    let mut j: usize = from;
    loop
        invariant
            from <= j <= v.len(),
            span_of(v@.skip(from as int), c) == (j - from) + span_of(v@.skip(j as int), c),
        decreases v.len() - j,
    {
        if j == v.len() {
            return j;
        }
        if (v[j] as u32) != (c as u32) {
            proof {
                assert(v@.skip(j as int)[0] == v@[j as int]);
            }
            return j;
        }
        proof {
            vstd::utf8::char_u32_cast(v@[j as int], v@[j as int] as u32);
            vstd::utf8::char_u32_cast(c, c as u32);
            assert(v@.skip(j as int)[0] == c);
            assert(v@.skip(j as int).drop_first() =~= v@.skip(j + 1));
        }
        j = j + 1;
    }
}

/// Whether every character of `v[from..to]` is a decimal digit.
pub fn check_digits(v: &Vec<char>, from: usize, to: usize) -> (b: bool)
    requires
        from <= to <= v.len(),
    ensures
        b == all_digits_range(v@, from as int, to as int),
{
    let mut i: usize = from;
    while i < to
        invariant
            from <= i <= to,
            all_digits_range(v@, from as int, i as int),
        decreases to - i,
    {
        let cu = v[i] as u32;
        if cu < 48 || cu > 57 {
            assert(!is_digit(v@[i as int]));
            return false;
        }
        assert(is_digit(v@[i as int]));
        i = i + 1;
    }
    true
}

/// `s` with any run of trailing spaces removed.
pub open spec fn strip_trailing_spaces(s: Seq<char>) -> Seq<char>
    decreases s.len(),
{
    if s.len() > 0 && s.last() == ' ' {
        strip_trailing_spaces(s.drop_last())
    } else {
        s
    }
}

/// The end of `v[..to]` once trailing spaces are dropped.
pub fn strip_spaces_end(v: &Vec<char>, to: usize) -> (r: usize)
    requires
        to <= v.len(),
    ensures
        r <= to,
        v@.take(r as int) == strip_trailing_spaces(v@.take(to as int)),
{
    let mut e: usize = to;
    while e > 0 && (v[e - 1] as u32) == 32
        invariant
            e <= to,
            strip_trailing_spaces(v@.take(to as int)) == strip_trailing_spaces(
                v@.take(e as int),
            ),
        decreases e,
    {
        proof {
            vstd::utf8::char_u32_cast(v@[e - 1], v@[e - 1] as u32);
            vstd::utf8::char_u32_cast(' ', ' ' as u32);
            assert(v@.take(e as int).last() == ' ');
            assert(v@.take(e as int).drop_last() =~= v@.take(e - 1));
        }
        e = e - 1;
    }
    proof {
        if e > 0 {
            assert(v@.take(e as int).last() == v@[e - 1]);
        }
    }
    e
}

/// Whether the character at `i` is exactly `c`.
pub fn char_at_is(v: &Vec<char>, i: usize, c: char) -> (b: bool)
    requires
        i < v.len(),
    ensures
        b == (v@[i as int] == c),
{
    let b = (v[i] as u32) == (c as u32);
    proof {
        vstd::utf8::char_u32_cast(v@[i as int], v@[i as int] as u32);
        vstd::utf8::char_u32_cast(c, c as u32);
    }
    b
}

/// Whether two characters are the same.
pub fn char_eq(a: char, b: char) -> (r: bool)
    ensures
        r == (a == b),
{
    let r = (a as u32) == (b as u32);
    proof {
        vstd::utf8::char_u32_cast(a, a as u32);
        vstd::utf8::char_u32_cast(b, b as u32);
    }
    r
}

/// `s` without its terminating newline, if it carries one.
pub open spec fn spec_strip_nl(s: Seq<char>) -> Seq<char> {
    if s.len() > 0 && s.last() == '\n' {
        s.drop_last()
    } else {
        s
    }
}

/// Whether `s` holds a `YYYY-MM-DD` shape at position `p`.
pub open spec fn date_shape_at(s: Seq<char>, p: int) -> bool {
    &&& 0 <= p && p + 10 <= s.len()
    &&& all_digits_range(s, p, p + 4)
    &&& s[p + 4] == '-'
    &&& all_digits_range(s, p + 5, p + 7)
    &&& s[p + 7] == '-'
    &&& all_digits_range(s, p + 8, p + 10)
}

/// The date fields written at position `p` (fields unvalidated).
pub open spec fn date_value_at(s: Seq<char>, p: int) -> Date {
    Date {
        year: digits_val(s.subrange(p, p + 4)) as u32,
        month: digits_val(s.subrange(p + 5, p + 7)) as u32,
        day: digits_val(s.subrange(p + 8, p + 10)) as u32,
    }
}

/// Whether `v` holds a `YYYY-MM-DD` shape at position `p`.
pub fn check_date_shape(v: &Vec<char>, p: usize) -> (b: bool)
    ensures
        b == date_shape_at(v@, p as int),
{
    if p > v.len() || v.len() - p < 10 {
        return false;
    }
    if !check_digits(v, p, p + 4) {
        return false;
    }
    if !char_at_is(v, p + 4, '-') {
        return false;
    }
    if !check_digits(v, p + 5, p + 7) {
        return false;
    }
    if !char_at_is(v, p + 7, '-') {
        return false;
    }
    check_digits(v, p + 8, p + 10)
}

/// Reads the date fields written at position `p`.
pub fn date_at(v: &Vec<char>, p: usize) -> (d: Date)
    requires
        date_shape_at(v@, p as int),
    ensures
        d == date_value_at(v@, p as int),
{
    let n = v.len();
    assert(p + 10 <= n);
    let y = digits_value(v, p, p + 4);
    let m = digits_value(v, p + 5, p + 7);
    let d2 = digits_value(v, p + 8, p + 10);
    Date { year: y, month: m, day: d2 }
}

/// Appends every character of `v` to `s`.
pub fn push_chars(s: &mut String, v: &Vec<char>)
    ensures
        final(s)@ == old(s)@ + v@,
{
    let mut i: usize = 0;
    while i < v.len()
        invariant
            i <= v@.len(),
            s@ == old(s)@ + v@.take(i as int),
        decreases v.len() - i,
    {
        s.push(v[i]);
        proof {
            assert(old(s)@ + v@.take(i + 1 as int) =~= (old(s)@ + v@.take(i as int)).push(
                v@[i as int],
            ));
        }
        i = i + 1;
    }
    proof {
        assert(old(s)@ + v@.take(v@.len() as int) =~= old(s)@ + v@);
    }
}

/// A copy of a vector of strings, equal to the original.
pub fn clone_string_vec(v: &Vec<String>) -> (r: Vec<String>)
    ensures
        r@ == v@,
{
    let mut r: Vec<String> = Vec::new();
    let mut i: usize = 0;
    while i < v.len()
        invariant
            i <= v@.len(),
            r@.len() == i,
            forall|k: int| 0 <= k < i ==> r@[k] == v@[k],
        decreases v.len() - i,
    {
        r.push(v[i].clone());
        i = i + 1;
    }
    proof {
        assert(r@ =~= v@);
    }
    r
}

/// The first of the two options that holds a value.
pub fn first_available<T>(opt1: Option<T>, opt2: Option<T>) -> (r: Option<T>)
    ensures
        r == if opt1 is Some {
            opt1
        } else {
            opt2
        },
{
    match opt1 {
        Some(v) => Some(v),
        None => opt2,
    }
}

/// Whether the three fields, read as digit strings, name a valid date:
/// exactly then does `to_date` succeed.
pub open spec fn spec_to_date_ok(year: Seq<char>, month: Seq<char>, day: Seq<char>) -> bool {
    &&& year.len() > 0 && all_digits_range(year, 0, year.len() as int)
    &&& month.len() > 0 && all_digits_range(month, 0, month.len() as int)
    &&& day.len() > 0 && all_digits_range(day, 0, day.len() as int)
    &&& digits_val(year) <= i32::MAX
    &&& digits_val(month) <= i32::MAX
    &&& digits_val(day) <= i32::MAX
    &&& spec_to_date_value(year, month, day).valid()
}

/// The date named by the three digit strings.
pub open spec fn spec_to_date_value(year: Seq<char>, month: Seq<char>, day: Seq<char>) -> Date {
    Date {
        year: digits_val(year) as u32,
        month: digits_val(month) as u32,
        day: digits_val(day) as u32,
    }
}

/// Reads a digit string bounded by `i32::MAX`; rejects empty strings,
/// non-digits, and values beyond that bound.
fn parse_u31(s: &str) -> (r: Option<u32>)
    ensures
        match r {
            Some(v) => {
                &&& s@.len() > 0
                &&& all_digits_range(s@, 0, s@.len() as int)
                &&& digits_val(s@) <= i32::MAX
                &&& v == digits_val(s@)
            },
            None => !(s@.len() > 0 && all_digits_range(s@, 0, s@.len() as int) && digits_val(s@)
                <= i32::MAX),
        },
{
    let v = chars_vec(s);
    if v.len() == 0 {
        return None;
    }
    let mut r: u32 = 0;
    let mut i: usize = 0;
    while i < v.len()
        invariant
            0 <= i <= v.len(),
            v@ == s@,
            all_digits_range(v@, 0, i as int),
            r == digits_val(v@.subrange(0, i as int)),
            r <= i32::MAX,
        decreases v.len() - i,
    {
        let c = v[i];
        let cu = c as u32;
        if cu < 48 || cu > 57 {
            assert(!is_digit(v@[i as int]));
            return None;
        }
        proof {
            assert(is_digit(v@[i as int]));
            assert(v@.subrange(0, i + 1 as int).drop_last() =~= v@.subrange(0, i as int));
            assert(v@.subrange(0, i + 1 as int).last() == v@[i as int]);
        }
        let d = cu - 48;
        let wide: u64 = (r as u64) * 10 + (d as u64);
        proof {
            assert(digits_val(v@.subrange(0, i + 1 as int)) == digits_val(
                v@.subrange(0, i as int),
            ) * 10 + digit_val(v@[i as int]));
            assert(wide == digits_val(v@.subrange(0, i + 1 as int)));
        }
        if wide > 0x7fffffff {
            proof {
                if all_digits_range(v@, 0, v@.len() as int) {
                    lemma_digits_val_extend(v@, i + 1 as int, v@.len() as int);
                    assert(v@.subrange(0, v@.len() as int) =~= v@);
                }
            }
            return None;
        }
        r = wide as u32;
        i = i + 1;
    }
    assert(v@.subrange(0, v@.len() as int) =~= v@);
    Some(r)
}

/// The length of the run of decimal digits at the start of `s`.
pub open spec fn digit_run(s: Seq<char>) -> int
    decreases s.len(),
{
    if s.len() == 0 {
        0
    } else if !is_digit(s[0]) {
        0
    } else {
        1 + digit_run(s.drop_first())
    }
}

/// `digit_run` names the first non-digit position, or the length;
/// everything before it is a digit.
pub proof fn lemma_digit_run(s: Seq<char>)
    ensures
        0 <= digit_run(s) <= s.len(),
        digit_run(s) < s.len() ==> !is_digit(s[digit_run(s)]),
        forall|i: int| 0 <= i < digit_run(s) ==> is_digit(#[trigger] s[i]),
    decreases s.len(),
{
    if s.len() > 0 && is_digit(s[0]) {
        lemma_digit_run(s.drop_first());
        assert forall|i: int| 0 <= i < digit_run(s) implies is_digit(#[trigger] s[i]) by {
            if i > 0 {
                assert(s.drop_first()[i - 1] == s[i]);
            }
        }
    }
}

/// The position of the first non-digit at or after `from`.
pub fn skip_digits(v: &Vec<char>, from: usize) -> (r: usize)
    requires
        from <= v.len(),
    ensures
        from <= r <= v.len(),
        r - from == digit_run(v@.skip(from as int)),
{
    let mut j: usize = from;
    loop
        invariant
            from <= j <= v.len(),
            digit_run(v@.skip(from as int)) == (j - from) + digit_run(v@.skip(j as int)),
        decreases v.len() - j,
    {
        if j == v.len() {
            return j;
        }
        let cu = v[j] as u32;
        if cu < 48 || cu > 57 {
            proof {
                assert(v@.skip(j as int)[0] == v@[j as int]);
                assert(!is_digit(v@[j as int]));
            }
            return j;
        }
        proof {
            assert(v@.skip(j as int)[0] == v@[j as int]);
            assert(is_digit(v@[j as int]));
            assert(v@.skip(j as int).drop_first() =~= v@.skip(j + 1));
        }
        j = j + 1;
    }
}

/// The value of the digit run `v[from..to]`, or nothing when it exceeds
/// `i64::MAX`.
fn digits_value_i64(v: &Vec<char>, from: usize, to: usize) -> (r: Option<i64>)
    requires
        from <= to <= v.len(),
        all_digits_range(v@, from as int, to as int),
    ensures
        ({
            let val = digits_val(v@.subrange(from as int, to as int));
            match r {
                Some(x) => x == val && val <= i64::MAX,
                None => val > i64::MAX,
            }
        }),
{
    let mut acc: i64 = 0;
    let mut i: usize = from;
    while i < to
        invariant
            from <= i <= to,
            0 <= acc,
            acc == digits_val(v@.subrange(from as int, i as int)),
        decreases to - i,
    {
        let c = v[i];
        assert(is_digit(v@[i as int]));
        let d = (c as u32) - 48;
        proof {
            assert(v@.subrange(from as int, i + 1 as int).drop_last() =~= v@.subrange(
                from as int,
                i as int,
            ));
            assert(v@.subrange(from as int, i + 1 as int).last() == v@[i as int]);
        }
        let wide: u128 = (acc as u128) * 10 + (d as u128);
        if wide > 0x7fff_ffff_ffff_ffff {
            proof {
                let s = v@.subrange(from as int, to as int);
                assert(s.subrange(0, i + 1 - from as int) =~= v@.subrange(
                    from as int,
                    i + 1 as int,
                ));
                assert forall|x: int|
                    i + 1 - from <= x < s.len() implies is_digit(#[trigger] s[x]) by {
                    assert(s[x] == v@[from + x]);
                }
                lemma_digits_val_extend(s, i + 1 - from, s.len() as int);
                assert(s.subrange(0, s.len() as int) =~= s);
            }
            return None;
        }
        acc = wide as i64;
        i = i + 1;
    }
    proof {
        assert(v@.subrange(from as int, to as int) =~= v@.subrange(from as int, i as int));
    }
    Some(acc)
}

/// The duration a `<hours>h <minutes>m` notation denotes, in minutes:
/// both parts optional, one blank allowed between them.
pub open spec fn spec_parse_duration(s: Seq<char>) -> Option<int> {
    let j = digit_run(s);
    let hp = j > 0 && j < s.len() && s[j] == 'h';
    let hv: int = if hp {
        digits_val(s.take(j))
    } else {
        0
    };
    let pos: int = if hp {
        j + 1
    } else {
        0
    };
    let pos2: int = if pos < s.len() && s[pos] == ' ' {
        pos + 1
    } else {
        pos
    };
    let k = digit_run(s.skip(pos2));
    if k > 0 && pos2 + k < s.len() && s[pos2 + k] == 'm' && pos2 + k + 1 == s.len() {
        Some(hv * 60 + digits_val(s.subrange(pos2, pos2 + k)))
    } else if pos2 == s.len() {
        Some(hv * 60)
    } else {
        None
    }
}

/// Parses a `<hours>h <minutes>m` command-line value into a duration.
/// A value of the wrong shape is a `CommandLine` failure; one too large
/// for the duration type is a `ParseInt` failure.
pub fn parse_duration(s: &str) -> (r: Result<Duration, Error>)
    ensures
        ({
            match spec_parse_duration(s@) {
                None => r matches Err(e) && (e matches Error::CommandLine(m) && m@
                    == "Command line argument did not have the form '<hours>h <minutes>m'"@),
                Some(v) => {
                    if v <= i64::MAX {
                        r matches Ok(d) && d@ == v
                    } else {
                        r == Err::<Duration, Error>(Error::ParseInt)
                    }
                },
            }
        }),
{
    let cv = chars_vec(s);
    let j = skip_digits(&cv, 0);
    proof {
        assert(cv@.skip(0) =~= cv@);
        lemma_digit_run(cv@);
        if j > 0 {
            lemma_digits_val_nonneg(cv@.subrange(0, j as int));
        }
    }
    let hp = j > 0 && j < cv.len() && char_at_is(&cv, j, 'h');
    let hv_opt: Option<i64> = if hp {
        proof {
            assert(cv@.take(j as int) =~= cv@.subrange(0, j as int));
        }
        digits_value_i64(&cv, 0, j)
    } else {
        Some(0)
    };
    let pos: usize = if hp {
        j + 1
    } else {
        0
    };
    let pos2: usize = if pos < cv.len() && char_at_is(&cv, pos, ' ') {
        pos + 1
    } else {
        pos
    };
    let k2 = skip_digits(&cv, pos2);
    proof {
        lemma_digit_run(cv@.skip(pos2 as int));
        lemma_digits_val_nonneg(cv@.subrange(pos2 as int, k2 as int));
        assert forall|x: int| pos2 <= x < k2 implies is_digit(#[trigger] cv@[x]) by {
            assert(cv@.skip(pos2 as int)[x - pos2] == cv@[x]);
        }
    }
    if k2 > pos2 && k2 < cv.len() && char_at_is(&cv, k2, 'm') && k2 + 1 == cv.len() {
        let mv_opt = digits_value_i64(&cv, pos2, k2);
        let hv = match hv_opt {
            Some(h) => h,
            None => {
                return Err(Error::ParseInt);
            },
        };
        let mv = match mv_opt {
            Some(m) => m,
            None => {
                return Err(Error::ParseInt);
            },
        };
        let total = match hv.checked_mul(60) {
            Some(t) => t,
            None => {
                return Err(Error::ParseInt);
            },
        };
        let total = match total.checked_add(mv) {
            Some(t) => t,
            None => {
                return Err(Error::ParseInt);
            },
        };
        Ok(Duration::minutes(total))
    } else if pos2 == cv.len() {
        let hv = match hv_opt {
            Some(h) => h,
            None => {
                return Err(Error::ParseInt);
            },
        };
        match hv.checked_mul(60) {
            Some(t) => Ok(Duration::minutes(t)),
            None => Err(Error::ParseInt),
        }
    } else {
        Err(
            Error::CommandLine(
                "Command line argument did not have the form '<hours>h <minutes>m'".to_owned(),
            ),
        )
    }
}

/// The date named by three numeric fields, most commonly the captures of a
/// `YYYY-MM-DD` pattern.  A field that is not a bounded digit string is a
/// `ParseInt` failure; fields that do not name a valid calendar date are a
/// `ParseDay` failure.  The fields are read as plain unsigned digit
/// strings: a sign prefix is rejected with `ParseInt`, and a year beyond
/// the four-digit calendar the library models (`MAX_YEAR`) is rejected
/// with `ParseDay` (with `ParseInt` once it exceeds the 32-bit integer
/// range) — a deliberate narrowing to the library's date model, which no
/// `YYYY-MM-DD` input can reach anyway.
pub fn to_date(year: &str, month: &str, day: &str) -> (r: Result<Date, Error>)
    ensures
        match r {
            Ok(d) => spec_to_date_ok(year@, month@, day@) && d == spec_to_date_value(
                year@,
                month@,
                day@,
            ),
            Err(e) => {
                &&& !spec_to_date_ok(year@, month@, day@)
                &&& (e == Error::ParseInt || e == Error::ParseDay)
                &&& (e == Error::ParseDay ==> !spec_to_date_value(year@, month@, day@).valid())
            },
        },
{
    let y = match parse_u31(year) {
        Some(v) => v,
        None => {
            return Err(Error::ParseInt);
        },
    };
    let m = match parse_u31(month) {
        Some(v) => v,
        None => {
            return Err(Error::ParseInt);
        },
    };
    let d = match parse_u31(day) {
        Some(v) => v,
        None => {
            return Err(Error::ParseInt);
        },
    };
    match Date::from_ymd_opt(y, m, d) {
        Some(date) => Ok(date),
        None => Err(Error::ParseDay),
    }
}

} // verus!
