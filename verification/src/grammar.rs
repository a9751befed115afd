//! Spec-level vocabulary of the type grammar: canonical decimal numerals,
//! parenthesis depth of character sequences, and comma-joined segment lists.
//! The parser's and serializer's contracts are stated over these functions.
use vstd::prelude::*;

verus! {

// ---------------------------------------------------------------------------
// Decimal numerals
// ---------------------------------------------------------------------------
pub open spec fn is_digit_char(c: char) -> bool {
    c == '0' || c == '1' || c == '2' || c == '3' || c == '4' || c == '5' || c == '6' || c == '7'
        || c == '8' || c == '9'
}

pub open spec fn digit_char(d: nat) -> char {
    if d == 0 {
        '0'
    } else if d == 1 {
        '1'
    } else if d == 2 {
        '2'
    } else if d == 3 {
        '3'
    } else if d == 4 {
        '4'
    } else if d == 5 {
        '5'
    } else if d == 6 {
        '6'
    } else if d == 7 {
        '7'
    } else if d == 8 {
        '8'
    } else {
        '9'
    }
}

pub open spec fn digit_val(c: char) -> nat {
    if c == '0' {
        0
    } else if c == '1' {
        1
    } else if c == '2' {
        2
    } else if c == '3' {
        3
    } else if c == '4' {
        4
    } else if c == '5' {
        5
    } else if c == '6' {
        6
    } else if c == '7' {
        7
    } else if c == '8' {
        8
    } else {
        9
    }
}

/// The canonical decimal numeral of `n`: no sign, no leading zeros.
pub open spec fn dec_rep(n: nat) -> Seq<char>
    decreases n,
{
    if n < 10 {
        seq![digit_char(n)]
    } else {
        dec_rep(n / 10) + seq![digit_char(n % 10)]
    }
}

/// The value of a digit string read as a decimal numeral.
pub open spec fn dec_val(s: Seq<char>) -> nat
    decreases s.len(),
{
    if s.len() == 0 {
        0
    } else {
        dec_val(s.drop_last()) * 10 + digit_val(s.last())
    }
}

pub open spec fn all_digits(s: Seq<char>) -> bool {
    forall|i: int| 0 <= i < s.len() ==> is_digit_char(#[trigger] s[i])
}

/// A digit string that is the canonical numeral of its own value.
pub open spec fn is_canonical_dec(s: Seq<char>) -> bool {
    s.len() > 0 && all_digits(s) && (s.len() == 1 || s[0] != '0')
}

pub proof fn lemma_dec_rep_canonical(n: nat)
    ensures
        is_canonical_dec(dec_rep(n)),
        dec_val(dec_rep(n)) == n,
        n > 0 ==> dec_rep(n)[0] != '0',
    decreases n,
{
    if n < 10 {
        assert(dec_rep(n) == seq![digit_char(n)]);
        assert(dec_rep(n).drop_last() =~= Seq::<char>::empty());
        assert(dec_rep(n).last() == digit_char(n));
        assert(dec_val(Seq::<char>::empty()) == 0);
        assert(dec_val(dec_rep(n)) == digit_val(digit_char(n)));
    } else {
        lemma_dec_rep_canonical(n / 10);
        let p = dec_rep(n / 10);
        let s = dec_rep(n);
        assert(s == p + seq![digit_char(n % 10)]);
        assert(s.drop_last() =~= p);
        assert(s.last() == digit_char(n % 10));
        assert(dec_val(s) == dec_val(p) * 10 + digit_val(digit_char(n % 10)));
        assert(digit_val(digit_char(n % 10)) == n % 10);
        assert(dec_val(s) == (n / 10) * 10 + n % 10);
        assert((n / 10) * 10 + n % 10 == n) by (nonlinear_arith);
        assert(s[0] == p[0]);
        assert(n / 10 > 0);
        assert(forall|i: int| 0 <= i < s.len() ==> is_digit_char(#[trigger] s[i])) by {
            assert(forall|i: int| 0 <= i < p.len() ==> is_digit_char(#[trigger] p[i]));
        }
    }
}

pub proof fn lemma_dec_val_pos(s: Seq<char>)
    requires
        s.len() > 0,
        s[0] != '0',
        all_digits(s),
    ensures
        dec_val(s) >= 1,
    decreases s.len(),
{
    if s.len() == 1 {
        assert(s.drop_last() =~= Seq::<char>::empty());
        assert(is_digit_char(s[0]));
    } else {
        let p = s.drop_last();
        assert(p[0] == s[0]);
        assert(all_digits(p)) by {
            assert(forall|i: int| 0 <= i < p.len() ==> p[i] == s[i] && is_digit_char(#[trigger] s[i]));
        }
        lemma_dec_val_pos(p);
        assert(dec_val(s) == dec_val(p) * 10 + digit_val(s.last()));
        assert(dec_val(p) * 10 >= dec_val(p)) by (nonlinear_arith)
            requires dec_val(p) >= 0;
    }
}

/// A canonical digit string is the numeral of its value.
pub proof fn lemma_canonical_dec_rep(s: Seq<char>)
    requires
        is_canonical_dec(s),
    ensures
        dec_rep(dec_val(s)) == s,
    decreases s.len(),
{
    if s.len() == 1 {
        assert(s.drop_last() =~= Seq::<char>::empty());
        assert(s.last() == s[0]);
        assert(dec_val(Seq::<char>::empty()) == 0);
        assert(dec_val(s) == digit_val(s[0]));
        assert(is_digit_char(s[0]));
        assert(digit_char(digit_val(s[0])) == s[0]);
        assert(dec_rep(dec_val(s)) =~= s);
    } else {
        let p = s.drop_last();
        assert(p[0] == s[0]);
        assert(all_digits(p)) by {
            assert(forall|i: int| 0 <= i < p.len() ==> p[i] == s[i] && is_digit_char(#[trigger] s[i]));
        }
        assert(is_canonical_dec(p));
        lemma_canonical_dec_rep(p);
        lemma_dec_val_pos(p);
        let d = digit_val(s.last());
        let v = dec_val(s);
        assert(v == dec_val(p) * 10 + d);
        assert(v >= 10) by (nonlinear_arith)
            requires dec_val(p) >= 1, d >= 0, v == dec_val(p) * 10 + d;
        assert(v / 10 == dec_val(p) && v % 10 == d) by (nonlinear_arith)
            requires v == dec_val(p) * 10 + d, 0 <= d < 10;
        assert(is_digit_char(s.last()));
        assert(digit_char(d) == s.last());
        assert(dec_rep(v) == dec_rep(dec_val(p)) + seq![digit_char(v % 10)]);
        assert(dec_rep(v) =~= s);
    }
}

/// Reading a longer prefix of a digit string never reads a smaller value.
pub proof fn lemma_dec_val_take_mono(s: Seq<char>, i: int, j: int)
    requires
        0 <= i <= j <= s.len(),
    ensures
        dec_val(s.take(i)) <= dec_val(s.take(j)),
    decreases j - i,
{
    if i < j {
        lemma_dec_val_take_mono(s, i, j - 1);
        let t = s.take(j);
        assert(t.drop_last() =~= s.take(j - 1));
        assert(dec_val(t) == dec_val(s.take(j - 1)) * 10 + digit_val(t.last()));
        assert(dec_val(s.take(j - 1)) * 10 >= dec_val(s.take(j - 1))) by (nonlinear_arith)
            requires dec_val(s.take(j - 1)) >= 0;
    }
}

// ---------------------------------------------------------------------------
// Parenthesis depth
// ---------------------------------------------------------------------------
pub open spec fn char_depth(c: char) -> int {
    if c == '(' {
        1
    } else if c == ')' {
        -1
    } else {
        0
    }
}

/// Number of unmatched opening parentheses after reading `s`.
pub open spec fn pdepth(s: Seq<char>) -> int
    decreases s.len(),
{
    if s.len() == 0 {
        0
    } else {
        pdepth(s.drop_last()) + char_depth(s.last())
    }
}

pub open spec fn prefixes_nonneg(s: Seq<char>) -> bool {
    forall|i: int| 0 <= i <= s.len() ==> pdepth(#[trigger] s.take(i)) >= 0
}

/// Every opening parenthesis is matched, and never a close before its open.
pub open spec fn balanced(s: Seq<char>) -> bool {
    pdepth(s) == 0 && prefixes_nonneg(s)
}

/// No comma of `s` stands outside all parentheses.
pub open spec fn no_top_comma(s: Seq<char>) -> bool {
    forall|i: int| 0 <= i < s.len() && #[trigger] s[i] == ',' ==> pdepth(s.take(i)) != 0
}

/// A non-empty, balanced stretch of text with no top-level comma: exactly the
/// shape of one element of a comma-separated list.
pub open spec fn valid_segment(s: Seq<char>) -> bool {
    s.len() > 0 && balanced(s) && no_top_comma(s)
}

pub proof fn lemma_pdepth_concat(a: Seq<char>, b: Seq<char>)
    ensures
        pdepth(a + b) == pdepth(a) + pdepth(b),
    decreases b.len(),
{
    if b.len() == 0 {
        assert(a + b =~= a);
    } else {
        lemma_pdepth_concat(a, b.drop_last());
        assert((a + b).drop_last() =~= a + b.drop_last());
        assert((a + b).last() == b.last());
        assert(pdepth(a + b) == pdepth(a + b.drop_last()) + char_depth(b.last()));
    }
}

/// A string without parentheses sits at depth zero everywhere.
pub proof fn lemma_pdepth_no_paren(s: Seq<char>)
    requires
        forall|i: int| 0 <= i < s.len() ==> #[trigger] s[i] != '(' && s[i] != ')',
    ensures
        pdepth(s) == 0,
    decreases s.len(),
{
    if s.len() > 0 {
        let p = s.drop_last();
        assert(forall|i: int| 0 <= i < p.len() ==> p[i] == s[i] && #[trigger] s[i] != '(' && s[i] != ')');
        lemma_pdepth_no_paren(p);
        assert(char_depth(s.last()) == 0);
    }
}

/// A non-empty string without parentheses or commas is a valid segment.
pub proof fn lemma_no_paren_comma_segment(s: Seq<char>)
    requires
        s.len() > 0,
        forall|i: int| 0 <= i < s.len() ==> #[trigger] s[i] != '(' && s[i] != ')' && s[i] != ',',
    ensures
        valid_segment(s),
{
    lemma_pdepth_no_paren(s);
    assert forall|i: int| 0 <= i <= s.len() implies pdepth(#[trigger] s.take(i)) >= 0 by {
        let t = s.take(i);
        assert(forall|j: int| 0 <= j < t.len() ==> t[j] == s[j] && #[trigger] s[j] != '(' && s[j] != ')');
        lemma_pdepth_no_paren(t);
    }
    assert(no_top_comma(s));
}

// ---------------------------------------------------------------------------
// Comma-joined segment lists
// ---------------------------------------------------------------------------
/// `join_commas([a, b, c]) == a + "," + b + "," + c`.
pub open spec fn join_commas(segs: Seq<Seq<char>>) -> Seq<char>
    decreases segs.len(),
{
    if segs.len() == 0 {
        Seq::empty()
    } else if segs.len() == 1 {
        segs[0]
    } else {
        join_commas(segs.drop_last()) + seq![','] + segs.last()
    }
}

/// `segs` is the top-level comma decomposition of `inner`.
pub open spec fn is_segments(inner: Seq<char>, segs: Seq<Seq<char>>) -> bool {
    &&& segs.len() > 0
    &&& forall|i: int| 0 <= i < segs.len() ==> valid_segment(#[trigger] segs[i])
    &&& join_commas(segs) == inner
}

pub proof fn lemma_pdepth_single(c: char)
    ensures
        pdepth(seq![c]) == char_depth(c),
{
    let s = seq![c];
    assert(s.drop_last() =~= Seq::<char>::empty());
    assert(s.last() == c);
    assert(pdepth(Seq::<char>::empty()) == 0);
}

pub proof fn lemma_pdepth_comma()
    ensures
        pdepth(seq![',']) == 0,
{
    let s = seq![','];
    assert(s.drop_last() =~= Seq::<char>::empty());
    assert(s.last() == ',');
    assert(pdepth(Seq::<char>::empty()) == 0);
    assert(char_depth(',') == 0);
}

/// Two commas standing next to each other anywhere in `s`, at any
/// parenthesis depth.
pub open spec fn has_double_comma(s: Seq<char>) -> bool {
    exists|i: int| 0 <= i && i + 1 < s.len() && #[trigger] s[i] == ',' && s[i + 1] == ','
}

/// A valid segment neither starts nor ends with a comma.
pub proof fn lemma_segment_ends(s: Seq<char>)
    requires
        valid_segment(s),
    ensures
        s[0] != ',',
        s[s.len() - 1] != ',',
{
    assert(s.take(0) =~= Seq::<char>::empty());
    if s[0] == ',' {
        assert(pdepth(s.take(0)) == 0);
        assert(false);
    }
    if s[s.len() - 1] == ',' {
        assert(s.take(s.len() - 1) =~= s.drop_last());
        assert(pdepth(s) == pdepth(s.drop_last()) + char_depth(s.last()));
        assert(char_depth(',') == 0);
        assert(pdepth(s.take(s.len() - 1)) == 0);
        assert(pdepth(s.take(s.len() - 1)) != 0);
        assert(false);
    }
}

pub proof fn lemma_join_cons(segs: Seq<Seq<char>>)
    requires
        segs.len() >= 2,
    ensures
        join_commas(segs) == segs[0] + seq![','] + join_commas(segs.drop_first()),
    decreases segs.len(),
{
    if segs.len() == 2 {
        let dl = segs.drop_last();
        assert(dl.len() == 1 && dl[0] == segs[0]);
        assert(join_commas(dl) == segs[0]);
        let df = segs.drop_first();
        assert(df.len() == 1 && df[0] == segs[1]);
        assert(join_commas(df) == segs[1]);
        assert(segs.last() == segs[1]);
    } else {
        let dl = segs.drop_last();
        lemma_join_cons(dl);
        assert(dl[0] == segs[0]);
        let df = segs.drop_first();
        assert(df.len() >= 2);
        assert(df.drop_last() =~= dl.drop_first());
        assert(df.last() == segs.last());
        assert(join_commas(segs) == join_commas(dl) + seq![','] + segs.last());
        assert(join_commas(dl) == segs[0] + seq![','] + join_commas(dl.drop_first()));
        assert(join_commas(df) == join_commas(df.drop_last()) + seq![','] + df.last());
        assert(join_commas(segs) =~= segs[0] + seq![','] + join_commas(df));
    }
}

/// The join of valid segments is balanced and non-empty.
pub proof fn lemma_join_balanced(segs: Seq<Seq<char>>)
    requires
        segs.len() >= 1,
        forall|i: int| 0 <= i < segs.len() ==> valid_segment(#[trigger] segs[i]),
    ensures
        pdepth(join_commas(segs)) == 0,
        prefixes_nonneg(join_commas(segs)),
        join_commas(segs).len() >= 1,
    decreases segs.len(),
{
    if segs.len() == 1 {
        assert(valid_segment(segs[0]));
    } else {
        let dl = segs.drop_last();
        assert(forall|i: int| 0 <= i < dl.len() ==> dl[i] == segs[i] && valid_segment(#[trigger] segs[i]));
        lemma_join_balanced(dl);
        let x = join_commas(dl);
        let l = segs.last();
        assert(valid_segment(l));
        let j = join_commas(segs);
        assert(j == x + seq![','] + l);
        lemma_pdepth_concat(x, seq![',']);
        lemma_pdepth_concat(x + seq![','], l);
        lemma_pdepth_comma();
                assert(pdepth(seq![',']) == 0);
        assert(pdepth(j) == 0);
        assert forall|i: int| 0 <= i <= j.len() implies pdepth(#[trigger] j.take(i)) >= 0 by {
            if i <= x.len() {
                assert(j.take(i) =~= x.take(i));
            } else if i == x.len() + 1 {
                assert(j.take(i) =~= x + seq![',']);
                lemma_pdepth_concat(x, seq![',']);
                lemma_pdepth_comma();
                assert(pdepth(seq![',']) == 0);
            } else {
                let q = i - x.len() - 1;
                assert(j.take(i) =~= (x + seq![',']) + l.take(q));
                lemma_pdepth_concat(x, seq![',']);
                lemma_pdepth_concat(x + seq![','], l.take(q));
                lemma_pdepth_comma();
                assert(pdepth(seq![',']) == 0);
                assert(pdepth(l.take(q)) >= 0);
            }
        }
    }
}

/// The join of valid segments none of which contains a doubled comma has no
/// doubled comma: every comma the join introduces stands between the last
/// character of one segment and the first of the next, and neither is a
/// comma.
pub proof fn lemma_join_no_double_comma(segs: Seq<Seq<char>>)
    requires
        segs.len() >= 1,
        forall|i: int| 0 <= i < segs.len() ==> valid_segment(#[trigger] segs[i]),
        forall|i: int| 0 <= i < segs.len() ==> !has_double_comma(#[trigger] segs[i]),
    ensures
        !has_double_comma(join_commas(segs)),
    decreases segs.len(),
{
    if segs.len() == 1 {
        assert(join_commas(segs) == segs[0]);
    } else {
        let dl = segs.drop_last();
        assert(forall|i: int|
            0 <= i < dl.len() ==> dl[i] == segs[i] && valid_segment(#[trigger] segs[i])
                && !has_double_comma(segs[i]));
        lemma_join_no_double_comma(dl);
        let x = join_commas(dl);
        let l = segs.last();
        let j = join_commas(segs);
        assert(j == x + seq![','] + l);
        lemma_join_balanced(dl);
        assert(valid_segment(l));
        lemma_segment_ends(l);
        // the last character of the left join is the last segment's last
        assert(x[x.len() - 1] != ',') by {
            if dl.len() == 1 {
                assert(x == dl[0]);
                lemma_segment_ends(dl[0]);
            } else {
                assert(x == join_commas(dl.drop_last()) + seq![','] + dl.last());
                assert(valid_segment(dl.last()));
                lemma_segment_ends(dl.last());
                assert(x[x.len() - 1] == dl.last()[dl.last().len() - 1]);
            }
        }
        if has_double_comma(j) {
            let q = choose|q: int| 0 <= q && q + 1 < j.len() && #[trigger] j[q] == ',' && j[q + 1]
                == ',';
            let xl = x.len() as int;
            if q + 1 < xl {
                assert(j[q] == x[q] && j[q + 1] == x[q + 1]);
                assert(has_double_comma(x));
                assert(false);
            } else if q + 1 == xl {
                assert(j[q] == x[xl - 1]);
                assert(false);
            } else if q == xl {
                assert(j[q + 1] == l[0]);
                lemma_segment_ends(l);
                assert(false);
            } else {
                assert(j[q] == l[q - xl - 1] && j[q + 1] == l[q - xl]);
                assert(has_double_comma(l));
                assert(false);
            }
        }
    }
}

/// In the join of valid segments, every top-level comma is an interior
/// separator: not first, not last, and never followed by another comma.
pub proof fn lemma_segments_commas(inner: Seq<char>, segs: Seq<Seq<char>>)
    requires
        is_segments(inner, segs),
    ensures
        forall|p: int|
            0 <= p < inner.len() && #[trigger] inner[p] == ',' && pdepth(inner.take(p)) == 0 ==> 1
                <= p && p + 1 < inner.len() && inner[p + 1] != ',',
    decreases segs.len(),
{
    if segs.len() == 1 {
        assert(inner == segs[0]);
        assert forall|p: int|
            0 <= p < inner.len() && #[trigger] inner[p] == ',' && pdepth(inner.take(p)) == 0 implies 1
            <= p && p + 1 < inner.len() && inner[p + 1] != ',' by {
            assert(valid_segment(segs[0]));
            assert(pdepth(segs[0].take(p)) != 0);
        }
    } else {
        lemma_join_cons(segs);
        let h = segs[0];
        let hl = h.len() as int;
        assert(valid_segment(h));
        let df = segs.drop_first();
        assert(forall|i: int|
            0 <= i < df.len() ==> df[i] == segs[i + 1] && valid_segment(#[trigger] segs[i + 1]));
        let rest = join_commas(df);
        lemma_join_balanced(df);
        assert(is_segments(rest, df));
        lemma_segments_commas(rest, df);
        assert(inner == h + seq![','] + rest);
        assert(inner.len() == hl + 1 + rest.len());
        // the first character of `rest` is the first character of segs[1]
        assert(rest[0] != ',') by {
            if df.len() == 1 {
                assert(rest == df[0]);
            } else {
                lemma_join_cons(df);
                assert(rest == df[0] + seq![','] + join_commas(df.drop_first()));
                assert(rest[0] == df[0][0]);
            }
            assert(valid_segment(df[0]));
            assert(df[0].take(0) =~= Seq::<char>::empty());
            if df[0][0] == ',' {
                assert(pdepth(df[0].take(0)) == 0);
            }
        }
        assert forall|p: int|
            0 <= p < inner.len() && #[trigger] inner[p] == ',' && pdepth(inner.take(p)) == 0 implies 1
            <= p && p + 1 < inner.len() && inner[p + 1] != ',' by {
            if p < hl {
                assert(inner.take(p) =~= h.take(p));
                assert(inner[p] == h[p]);
                assert(pdepth(h.take(p)) != 0);
            } else if p == hl {
                assert(1 <= p);
                assert(p + 1 < inner.len());
                assert(inner[p + 1] == rest[0]);
            } else {
                let q = p - hl - 1;
                assert(inner[p] == rest[q]);
                assert(inner.take(p) =~= (h + seq![',']) + rest.take(q));
                lemma_pdepth_concat(h, seq![',']);
                lemma_pdepth_concat(h + seq![','], rest.take(q));
                lemma_pdepth_comma();
                assert(pdepth(seq![',']) == 0);
                assert(pdepth(rest.take(q)) == 0);
                assert(1 <= q && q + 1 < rest.len() && rest[q + 1] != ',');
                assert(inner[p + 1] == rest[q + 1]);
            }
        }
    }
}

/// The top-level comma decomposition of a string is unique.
pub proof fn lemma_segments_unique(inner: Seq<char>, s1: Seq<Seq<char>>, s2: Seq<Seq<char>>)
    requires
        is_segments(inner, s1),
        is_segments(inner, s2),
    ensures
        s1 == s2,
    decreases s1.len(),
{
    let a = s1[0];
    let b = s2[0];
    assert(valid_segment(a) && valid_segment(b));
    // both heads are prefixes of inner
    if s1.len() >= 2 {
        lemma_join_cons(s1);
    }
    if s2.len() >= 2 {
        lemma_join_cons(s2);
    }
    assert(a =~= inner.take(a.len() as int)) by {
        if s1.len() == 1 {
            assert(inner == a);
            assert(inner.take(a.len() as int) =~= a);
        } else {
            assert(inner == a + seq![','] + join_commas(s1.drop_first()));
        }
    }
    assert(b =~= inner.take(b.len() as int)) by {
        if s2.len() == 1 {
            assert(inner == b);
            assert(inner.take(b.len() as int) =~= b);
        } else {
            assert(inner == b + seq![','] + join_commas(s2.drop_first()));
        }
    }
    assert(a.len() <= inner.len());
    assert(b.len() <= inner.len());
    // heads have the same length
    if a.len() < b.len() {
        assert(s1.len() >= 2) by {
            if s1.len() == 1 {
                assert(inner == a);
            }
        }
        assert(inner[a.len() as int] == ',');
        assert(pdepth(inner.take(a.len() as int)) == 0);
        assert(b[a.len() as int] == inner[a.len() as int]);
        assert(b.take(a.len() as int) =~= inner.take(a.len() as int));
        assert(pdepth(b.take(a.len() as int)) != 0);
        assert(false);
    }
    if b.len() < a.len() {
        assert(s2.len() >= 2) by {
            if s2.len() == 1 {
                assert(inner == b);
            }
        }
        assert(inner[b.len() as int] == ',');
        assert(pdepth(inner.take(b.len() as int)) == 0);
        assert(a[b.len() as int] == inner[b.len() as int]);
        assert(a.take(b.len() as int) =~= inner.take(b.len() as int));
        assert(pdepth(a.take(b.len() as int)) != 0);
        assert(false);
    }
    assert(a.len() == b.len());
    assert(a =~= b);
    if s1.len() == 1 {
        assert(inner == a);
        if s2.len() >= 2 {
            lemma_join_balanced(s2.drop_first());
            assert(inner.len() == b.len() + 1 + join_commas(s2.drop_first()).len());
            assert(false);
        }
        assert(s1 =~= s2);
    } else {
        if s2.len() == 1 {
            assert(inner == b);
            lemma_join_balanced(s1.drop_first());
            assert(inner.len() == a.len() + 1 + join_commas(s1.drop_first()).len());
            assert(false);
        }
        let tail = inner.subrange(a.len() as int + 1, inner.len() as int);
        let d1 = s1.drop_first();
        let d2 = s2.drop_first();
        assert(join_commas(d1) =~= tail) by {
            assert(inner == a + seq![','] + join_commas(d1));
        }
        assert(join_commas(d2) =~= tail) by {
            assert(inner == b + seq![','] + join_commas(d2));
        }
        assert(forall|i: int|
            0 <= i < d1.len() ==> d1[i] == s1[i + 1] && valid_segment(#[trigger] s1[i + 1]));
        assert(forall|i: int|
            0 <= i < d2.len() ==> d2[i] == s2[i + 1] && valid_segment(#[trigger] s2[i + 1]));
        assert(is_segments(tail, d1));
        assert(is_segments(tail, d2));
        lemma_segments_unique(tail, d1, d2);
        assert(s1.len() == d1.len() + 1 && s2.len() == d2.len() + 1);
        assert forall|i: int| 0 <= i < s1.len() implies s1[i] == s2[i] by {
            if i == 0 {
                assert(s1[0] == a && s2[0] == b);
            } else {
                assert(s1[i] == d1[i - 1]);
                assert(s2[i] == d2[i - 1]);
            }
        }
        assert(s1 =~= s2);
    }
}

} // verus!
