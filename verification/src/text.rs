use vstd::prelude::*;

use crate::expr::SchubertExpr;
use crate::integer::{big_abs, big_is_negative, big_is_one, big_to_string, decimal_nat, digit_char, Integer};
use crate::partition::{all_zero, Partition};
use crate::terms::{canonical, terms_view};

verus! {

/// The number of parts up to and including the last nonzero one.
pub open spec fn visible_len(s: Seq<u16>) -> nat
    decreases s.len(),
{
    if s.len() == 0 {
        0
    } else if s.last() != 0 {
        s.len()
    } else {
        visible_len(s.drop_last())
    }
}

/// The decimal parts of `s` separated by commas.
pub open spec fn joined_parts(s: Seq<u16>) -> Seq<char>
    decreases s.len(),
{
    if s.len() == 0 {
        Seq::empty()
    } else if s.len() == 1 {
        decimal_nat(s[0] as nat)
    } else {
        joined_parts(s.drop_last()) + seq![','] + decimal_nat(s.last() as nat)
    }
}

/// `(p_1,...,p_m)` for the parts up to the last nonzero one, e.g. `(3,1)`; `()` for zero.
pub open spec fn partition_text(s: Seq<u16>) -> Seq<char> {
    seq!['('] + joined_parts(s.subrange(0, visible_len(s) as int)) + seq![')']
}

/// `|c|`.
pub open spec fn abs_int(c: int) -> nat {
    if c < 0 {
        (-c) as nat
    } else {
        c as nat
    }
}

/// The text of one term without its sign: the bare coefficient for the unit class,
/// `sigma_(..)` for coefficient one, `c*sigma_(..)` otherwise.
pub open spec fn term_text(p: Seq<u16>, c: int) -> Seq<char> {
    if all_zero(p) {
        decimal_nat(abs_int(c))
    } else if abs_int(c) == 1 {
        seq!['s', 'i', 'g', 'm', 'a', '_'] + partition_text(p)
    } else {
        decimal_nat(abs_int(c)) + seq!['*', 's', 'i', 'g', 'm', 'a', '_'] + partition_text(p)
    }
}

/// The terms joined by ` + ` or ` - ` after their sign, the first one led by `-` when negative.
pub open spec fn terms_text(ts: Seq<(Seq<u16>, int)>) -> Seq<char>
    decreases ts.len(),
{
    if ts.len() == 0 {
        Seq::empty()
    } else if ts.len() == 1 {
        (if ts[0].1 < 0 { seq!['-'] } else { Seq::empty() }) + term_text(ts[0].0, ts[0].1)
    } else {
        terms_text(ts.drop_last()) + (if ts.last().1 < 0 {
            seq![' ', '-', ' ']
        } else {
            seq![' ', '+', ' ']
        }) + term_text(ts.last().0, ts.last().1)
    }
}

/// The text of an expression: `0` when it has no terms.
pub open spec fn expr_text(ts: Seq<(Seq<u16>, int)>) -> Seq<char> {
    if ts.len() == 0 {
        seq!['0']
    } else {
        terms_text(ts)
    }
}

/// The text of the decimal digit `d`.
fn digit_text(d: u16) -> (r: &'static str)
    requires
        d < 10,
    ensures
        r@ == seq![digit_char(d as nat)],
{
    proof {
        reveal_strlit("0");
        reveal_strlit("1");
        reveal_strlit("2");
        reveal_strlit("3");
        reveal_strlit("4");
        reveal_strlit("5");
        reveal_strlit("6");
        reveal_strlit("7");
        reveal_strlit("8");
        reveal_strlit("9");
    }
    match d {
        0 => "0",
        1 => "1",
        2 => "2",
        3 => "3",
        4 => "4",
        5 => "5",
        6 => "6",
        7 => "7",
        8 => "8",
        _ => "9",
    }
}

/// Appends the decimal digits of `x` to `out`.
fn append_decimal(out: &mut String, x: u16)
    ensures
        final(out)@ == old(out)@ + decimal_nat(x as nat),
    decreases x,
{
    if x >= 10 {
        append_decimal(out, x / 10);
    }
    out.append(digit_text(x % 10));
    proof {
        assert(old(out)@ + decimal_nat(x as nat) =~= if x >= 10 {
            old(out)@ + decimal_nat((x / 10) as nat) + seq![digit_char((x % 10) as nat)]
        } else {
            old(out)@ + seq![digit_char(x as nat)]
        });
    }
}

impl Partition {
    /// The text `(p_1,...,p_m)` of the parts up to the last nonzero one, e.g. `(3,1)`.
    pub fn to_string(&self) -> (r: String)
        ensures
            r@ == partition_text(self@),
    {
        let parts = self.parts();
        let mut visible = parts.len();
        proof {
            assert(parts@.subrange(0, visible as int) =~= parts@);
        }
        while visible > 0 && parts[visible - 1] == 0
            invariant
                visible <= parts@.len(),
                visible_len(parts@) == visible_len(parts@.subrange(0, visible as int)),
            decreases visible,
        {
            proof {
                assert(parts@.subrange(0, visible as int).drop_last() =~= parts@.subrange(0, visible - 1));
            }
            visible = visible - 1;
        }
        proof {
            if visible > 0 {
                assert(parts@.subrange(0, visible as int).last() == parts@[visible - 1]);
            }
            assert(visible_len(parts@.subrange(0, visible as int)) == visible);
        }
        let ghost shown = parts@.subrange(0, visible as int);
        let mut out = String::new();
        out.append("(");
        proof {
            reveal_strlit("(");
            assert(shown.subrange(0, 0) =~= Seq::<u16>::empty());
            assert(out@ =~= seq!['('] + joined_parts(shown.subrange(0, 0)));
        }
        let mut index: usize = 0;
        while index < visible
            invariant
                index <= visible,
                visible <= parts@.len(),
                shown == parts@.subrange(0, visible as int),
                out@ == seq!['('] + joined_parts(shown.subrange(0, index as int)),
            decreases visible - index,
        {
            proof {
                reveal_strlit(",");
                assert(shown.subrange(0, index + 1).drop_last() =~= shown.subrange(0, index as int));
                assert(shown.subrange(0, index + 1).last() == parts@[index as int]);
                if index == 0 {
                    assert(shown.subrange(0, 1) =~= seq![parts@[0]]);
                    assert(joined_parts(shown.subrange(0, 0)) =~= Seq::<char>::empty());
                }
            }
            if index > 0 {
                out.append(",");
            }
            append_decimal(&mut out, parts[index]);
            proof {
                assert(out@ =~= seq!['('] + joined_parts(shown.subrange(0, index + 1)));
            }
            index = index + 1;
        }
        out.append(")");
        proof {
            reveal_strlit("(");
            reveal_strlit(")");
            assert(shown.subrange(0, index as int) =~= shown);
            assert(out@ =~= partition_text(self@));
        }
        out
    }
}

fn append_term(out: &mut String, p: &Partition, c: &Integer)
    ensures
        final(out)@ == old(out)@ + term_text(p@, c@),
{
    let a = big_abs(c);
    let digits = big_to_string(&a);
    proof {
        reveal_strlit("sigma_");
        reveal_strlit("*sigma_");
        assert(a@ == abs_int(c@));
    }
    if p.is_empty() {
        out.append(digits.as_str());
    } else if big_is_one(&a) {
        out.append("sigma_");
        let text = p.to_string();
        out.append(text.as_str());
        proof {
            assert(final(out)@ =~= old(out)@ + term_text(p@, c@));
        }
    } else {
        out.append(digits.as_str());
        out.append("*sigma_");
        let text = p.to_string();
        out.append(text.as_str());
        proof {
            assert(final(out)@ =~= old(out)@ + term_text(p@, c@));
        }
    }
}

impl SchubertExpr {
    /// The text of this expression in the Schubert basis, e.g. `sigma_(1,1) + sigma_(2)`,
    /// with `0` for the zero expression.
    pub fn to_string(&self) -> (r: String)
        ensures
            r@ == expr_text(self@),
    {
        let terms = self.terms();
        let ghost ts = terms_view(terms@);
        if terms.len() == 0 {
            let mut out = String::new();
            out.append("0");
            proof {
                reveal_strlit("0");
                assert(out@ =~= seq!['0']);
            }
            return out;
        }
        let mut out = String::new();
        let mut index: usize = 0;
        while index < terms.len()
            invariant
                index <= terms@.len(),
                ts == terms_view(terms@),
                terms@.len() > 0,
                index > 0 ==> out@ == terms_text(ts.subrange(0, index as int)),
                index == 0 ==> out@ == Seq::<char>::empty(),
            decreases terms.len() - index,
        {
            let negative = big_is_negative(&terms[index].1);
            proof {
                reveal_strlit("-");
                reveal_strlit(" - ");
                reveal_strlit(" + ");
                assert(ts[index as int] == (terms@[index as int].0@, terms@[index as int].1@));
            }
            if index == 0 {
                if negative {
                    out.append("-");
                }
            } else if negative {
                out.append(" - ");
            } else {
                out.append(" + ");
            }
            append_term(&mut out, &terms[index].0, &terms[index].1);
            proof {
                assert(ts.subrange(0, index + 1).drop_last() =~= ts.subrange(0, index as int));
                assert(ts.subrange(0, index + 1).last() == ts[index as int]);
                if index == 0 {
                    assert(ts.subrange(0, 1) =~= seq![ts[0]]);
                }
                assert(out@ =~= terms_text(ts.subrange(0, index + 1)));
            }
            index = index + 1;
        }
        proof {
            assert(ts.subrange(0, index as int) =~= ts);
        }
        out
    }
}

/// The number of `-` characters in `s`.
pub open spec fn minus_count(s: Seq<char>) -> nat
    decreases s.len(),
{
    if s.len() == 0 {
        0
    } else {
        minus_count(s.drop_last()) + if s.last() == '-' { 1nat } else { 0nat }
    }
}

/// The number of negative coefficients in `ts`.
pub open spec fn negative_count(ts: Seq<(Seq<u16>, int)>) -> nat
    decreases ts.len(),
{
    if ts.len() == 0 {
        0
    } else {
        negative_count(ts.drop_last()) + if ts.last().1 < 0 { 1nat } else { 0nat }
    }
}

proof fn lemma_minus_count_add(a: Seq<char>, b: Seq<char>)
    ensures
        minus_count(a + b) == minus_count(a) + minus_count(b),
    decreases b.len(),
{
    if b.len() > 0 {
        lemma_minus_count_add(a, b.drop_last());
        assert((a + b).drop_last() =~= a + b.drop_last());
        assert((a + b).last() == b.last());
    }
}

proof fn lemma_count_single(c: char)
    ensures
        minus_count(seq![c]) == if c == '-' { 1nat } else { 0nat },
{
    assert(seq![c].drop_last() =~= Seq::<char>::empty());
    assert(minus_count(seq![c].drop_last()) == 0);
    assert(seq![c].last() == c);
}

proof fn lemma_decimal_no_minus(n: nat)
    ensures
        minus_count(decimal_nat(n)) == 0,
        decimal_nat(n).len() > 0,
        decimal_nat(n)[0] != '-',
    decreases n,
{
    if n < 10 {
        assert(digit_char(n) != '-') by {
            assert((48 + n) as char != '-');
        }
        lemma_count_single(digit_char(n));
    } else {
        lemma_decimal_no_minus(n / 10);
        let d = digit_char(n % 10);
        assert(d != '-') by {
            assert((48 + n % 10) as char != '-');
        }
        let x = decimal_nat(n / 10);
        assert(decimal_nat(n) == x.push(d));
        assert(x.push(d).drop_last() =~= x);
        assert(x.push(d).last() == d);
        assert(x.push(d)[0] == x[0]);
    }
}

proof fn lemma_joined_no_minus(s: Seq<u16>)
    ensures
        minus_count(joined_parts(s)) == 0,
    decreases s.len(),
{
    if s.len() == 1 {
        lemma_decimal_no_minus(s[0] as nat);
    } else if s.len() > 1 {
        lemma_joined_no_minus(s.drop_last());
        lemma_decimal_no_minus(s.last() as nat);
        lemma_count_single(',');
        lemma_minus_count_add(joined_parts(s.drop_last()), seq![',']);
        lemma_minus_count_add(joined_parts(s.drop_last()) + seq![','], decimal_nat(s.last() as nat));
    }
}

proof fn lemma_small_no_minus(s: Seq<char>)
    requires
        forall|i: int| 0 <= i < s.len() ==> s[i] != '-',
    ensures
        minus_count(s) == 0,
    decreases s.len(),
{
    if s.len() > 0 {
        lemma_small_no_minus(s.drop_last());
    }
}

proof fn lemma_term_no_minus(p: Seq<u16>, c: int)
    ensures
        minus_count(term_text(p, c)) == 0,
        term_text(p, c).len() > 0,
        term_text(p, c)[0] != '-',
{
    let pt = partition_text(p);
    let inner = joined_parts(p.subrange(0, visible_len(p) as int));
    lemma_joined_no_minus(p.subrange(0, visible_len(p) as int));
    lemma_small_no_minus(seq!['(']);
    lemma_small_no_minus(seq![')']);
    lemma_minus_count_add(seq!['('], inner);
    lemma_minus_count_add(seq!['('] + inner, seq![')']);
    let sig = seq!['s', 'i', 'g', 'm', 'a', '_'];
    let star = seq!['*', 's', 'i', 'g', 'm', 'a', '_'];
    lemma_small_no_minus(sig);
    lemma_small_no_minus(star);
    lemma_decimal_no_minus(abs_int(c));
    lemma_minus_count_add(sig, pt);
    lemma_minus_count_add(decimal_nat(abs_int(c)), star);
    lemma_minus_count_add(decimal_nat(abs_int(c)) + star, pt);
}

proof fn lemma_terms_text_signs(ts: Seq<(Seq<u16>, int)>)
    requires
        ts.len() > 0,
    ensures
        minus_count(terms_text(ts)) == negative_count(ts),
        terms_text(ts).len() > 0,
        (terms_text(ts)[0] == '-') <==> ts[0].1 < 0,
    decreases ts.len(),
{
    if ts.len() == 1 {
        lemma_term_no_minus(ts[0].0, ts[0].1);
        let lead: Seq<char> = if ts[0].1 < 0 { seq!['-'] } else { Seq::empty() };
        lemma_minus_count_add(lead, term_text(ts[0].0, ts[0].1));
        lemma_count_single('-');
        assert(minus_count(Seq::<char>::empty()) == 0);
        assert(ts.drop_last() =~= Seq::<(Seq<u16>, int)>::empty());
        assert(negative_count(ts.drop_last()) == 0);
        assert(ts.drop_last() =~= Seq::<(Seq<u16>, int)>::empty());
    } else {
        let front = ts.drop_last();
        lemma_terms_text_signs(front);
        lemma_term_no_minus(ts.last().0, ts.last().1);
        let sep: Seq<char> = if ts.last().1 < 0 { seq![' ', '-', ' '] } else { seq![' ', '+', ' '] };
        assert(minus_count(sep) == if ts.last().1 < 0 { 1nat } else { 0nat }) by {
            let m: char = if ts.last().1 < 0 { '-' } else { '+' };
            assert(sep =~= seq![' '] + seq![m] + seq![' ']);
            lemma_count_single(' ');
            lemma_count_single(m);
            lemma_minus_count_add(seq![' '], seq![m]);
            lemma_minus_count_add(seq![' '] + seq![m], seq![' ']);
        }
        lemma_minus_count_add(terms_text(front), sep);
        lemma_minus_count_add(terms_text(front) + sep, term_text(ts.last().0, ts.last().1));
        assert(front[0] == ts[0]);
    }
}

/// The text of an expression shows every sign: it holds exactly one `-` per negative
/// coefficient, and it starts with `-` exactly when the first coefficient is negative.
pub proof fn law_text_shows_signs(ts: Seq<(Seq<u16>, int)>)
    ensures
        minus_count(expr_text(ts)) == negative_count(ts),
        ts.len() > 0 ==> ((expr_text(ts)[0] == '-') <==> ts[0].1 < 0),
{
    if ts.len() == 0 {
        lemma_count_single('0');
    } else {
        lemma_terms_text_signs(ts);
    }
}

/// The value of a string of decimal digits, most significant first.
pub open spec fn digits_value(s: Seq<char>) -> int
    decreases s.len(),
{
    if s.len() == 0 {
        0
    } else {
        10 * digits_value(s.drop_last()) + (s.last() as int - 48)
    }
}

/// Decimal text reads back: the digits of `n` are decimal digits, the first one is not a
/// leading zero, and their value is `n`.
pub proof fn law_decimal_reads_back(n: nat)
    ensures
        digits_value(decimal_nat(n)) == n,
        forall|i: int| 0 <= i < decimal_nat(n).len() ==> '0' <= #[trigger] decimal_nat(n)[i] <= '9',
        decimal_nat(n).len() > 1 ==> decimal_nat(n)[0] != '0',
        n >= 10 ==> decimal_nat(n).len() > 1,
    decreases n,
{
    if n < 10 {
        let s = decimal_nat(n);
        assert(s =~= seq![digit_char(n)]);
        assert(s.drop_last() =~= Seq::<char>::empty());
        assert(digits_value(s.drop_last()) == 0);
        assert(digit_char(n) as int == 48 + n);
    } else {
        law_decimal_reads_back(n / 10);
        let x = decimal_nat(n / 10);
        let d = digit_char(n % 10);
        assert(d as int == 48 + n % 10);
        assert(decimal_nat(n) == x.push(d));
        assert(x.push(d).drop_last() =~= x);
        assert forall|i: int| 0 <= i < x.push(d).len() implies '0' <= #[trigger] x.push(d)[i] <= '9' by {
            if i < x.len() {
                assert(x.push(d)[i] == x[i]);
            }
        }
        assert(x.push(d)[0] == x[0]);
        if n / 10 < 10 {
            assert(x =~= seq![digit_char(n / 10)]);
            assert(digit_char(n / 10) as int == 48 + n / 10);
        }
        assert(n == 10 * (n / 10) + n % 10);
    }
}

} // verus!
