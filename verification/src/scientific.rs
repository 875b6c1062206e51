use vstd::prelude::*;
use crate::strings::push_char;

verus! {

/// `raw[i]` is the first `'e'` of `raw`.
pub open spec fn is_first_e(raw: Seq<char>, i: int) -> bool {
    0 <= i < raw.len() && raw[i] == 'e' && forall|j: int| 0 <= j < i ==> raw[j] != 'e'
}

/// The position of the first `'e'` in `raw` (meaningful when there is one).
pub open spec fn first_e(raw: Seq<char>) -> int {
    choose|i: int| is_first_e(raw, i)
}

/// `d` left-padded with `'0'` to at least two characters.
pub open spec fn pad2(d: Seq<char>) -> Seq<char> {
    if d.len() >= 2 {
        d
    } else {
        Seq::new((2 - d.len()) as nat, |_i: int| '0') + d
    }
}

/// Rust's `{:.17e}` text in Python's form: the text before the first `'e'`,
/// then `'e'`, the exponent's sign (`'-'` kept, `'+'` added) and its digits
/// left-padded with `'0'` to at least two.
pub open spec fn python_sci_text(raw: Seq<char>) -> Seq<char> {
    let i = first_e(raw);
    let mantissa = raw.take(i);
    let exp = raw.skip(i + 1);
    if exp.len() > 0 && exp[0] == '-' {
        mantissa + seq!['e', '-'] + pad2(exp.skip(1))
    } else {
        mantissa + seq!['e', '+'] + pad2(exp)
    }
}

/// The first `'e'` is where the `choose` of [`first_e`] lands.
proof fn lemma_first_e(raw: Seq<char>, i: int)
    requires
        is_first_e(raw, i),
    ensures
        first_e(raw) == i,
{
    let k = first_e(raw);
    assert(is_first_e(raw, k));
    if k < i {
        assert(raw[k] != 'e');
    } else if k > i {
        assert(raw[i] != 'e');
    }
}

/// A prefix without `'e'` stays so when a character other than `'e'` follows.
proof fn lemma_no_e_push(p: Seq<char>, c: char)
    requires
        !p.contains('e'),
        c != 'e',
    ensures
        !p.push(c).contains('e'),
{
    let q = p.push(c);
    if q.contains('e') {
        let k = choose|k: int| 0 <= k < q.len() && q[k] == 'e';
        if k < p.len() {
            assert(p[k] == 'e');
        }
    }
}

/// The first `'e'` of a text: the mantissa before it and the exponent
/// text after it.
proof fn lemma_first_e_push(p: Seq<char>)
    requires
        !p.contains('e'),
    ensures
        p.push('e').contains('e'),
        is_first_e(p.push('e'), p.len() as int),
        first_e(p.push('e')) == p.len(),
        p.push('e').take(p.len() as int) == p,
        p.push('e').skip(p.len() as int + 1) == Seq::<char>::empty(),
{
    let q = p.push('e');
    assert(q[p.len() as int] == 'e');
    assert forall|j: int| 0 <= j < p.len() implies q[j] != 'e' by {
        assert(q[j] == p[j]);
        if p[j] == 'e' {
            assert(p.contains('e'));
        }
    }
    lemma_first_e(q, p.len() as int);
    assert(q.take(p.len() as int) =~= p);
    assert(q.skip(p.len() as int + 1) =~= Seq::<char>::empty());
}

/// After the first `'e'`, a further character only extends the exponent text.
proof fn lemma_after_e_push(p: Seq<char>, c: char)
    requires
        p.contains('e'),
        is_first_e(p, first_e(p)),
    ensures
        p.push(c).contains('e'),
        is_first_e(p.push(c), first_e(p)),
        first_e(p.push(c)) == first_e(p),
        p.push(c).take(first_e(p)) == p.take(first_e(p)),
        p.push(c).skip(first_e(p) + 1) == p.skip(first_e(p) + 1).push(c),
{
    let q = p.push(c);
    let i = first_e(p);
    assert(q[i] == 'e');
    assert forall|j: int| 0 <= j < i implies q[j] != 'e' by {
        assert(q[j] == p[j]);
    }
    lemma_first_e(q, i);
    assert(q.take(i) =~= p.take(i));
    assert(q.skip(i + 1) =~= p.skip(i + 1).push(c));
}

/// A text with an `'e'` has a first one.
pub proof fn lemma_first_e_exists(raw: Seq<char>)
    requires
        raw.contains('e'),
    ensures
        is_first_e(raw, first_e(raw)),
    decreases raw.len(),
{
    let init = raw.drop_last();
    if init.contains('e') {
        lemma_first_e_exists(init);
        let i = first_e(init);
        assert(raw[i] == init[i]);
        assert forall|j: int| 0 <= j < i implies raw[j] != 'e' by {
            assert(raw[j] == init[j]);
        }
        lemma_first_e(raw, i);
    } else {
        let n = raw.len() - 1;
        let k = choose|k: int| 0 <= k < raw.len() && raw[k] == 'e';
        if k < n {
            assert(init[k] == 'e');
        }
        assert forall|j: int| 0 <= j < n implies raw[j] != 'e' by {
            assert(raw[j] == init[j]);
            if raw[j] == 'e' {
                assert(init.contains('e'));
            }
        }
        lemma_first_e(raw, n);
    }
}

/// The rewritten text keeps everything before the first `'e'`, then has
/// `'e'`, a sign (`'+'` or `'-'`) and at least two exponent digits.
pub proof fn lemma_python_sci_shape(raw: Seq<char>)
    requires
        raw.contains('e'),
    ensures
        python_sci_text(raw).take(first_e(raw)) == raw.take(first_e(raw)),
        python_sci_text(raw)[first_e(raw)] == 'e',
        python_sci_text(raw)[first_e(raw) + 1] == '+' || python_sci_text(raw)[first_e(raw) + 1] == '-',
        python_sci_text(raw).len() >= first_e(raw) + 4,
{
    lemma_first_e_exists(raw);
    let i = first_e(raw);
    let t = python_sci_text(raw);
    let exp = raw.skip(i + 1);
    let d = if exp.len() > 0 && exp[0] == '-' { exp.skip(1) } else { exp };
    assert(pad2(d).len() >= 2);
    assert(t.take(i) =~= raw.take(i));
}

/// The rewrite piece by piece, for the first `'e'` at `i`: the text before
/// it is kept; then come `'e'`, the sign (`'-'` exactly when the exponent
/// text starts with `'-'`, else `'+'`), zeros, and the exponent's digits
/// unchanged at the end, the zeros making at least two digits in all.
pub proof fn lemma_python_sci_parts(raw: Seq<char>, i: int)
    requires
        0 <= i < raw.len(),
        raw[i] == 'e',
        forall|j: int| 0 <= j < i ==> raw[j] != 'e',
    ensures
        ({
            let t = python_sci_text(raw);
            let neg = i + 1 < raw.len() && raw[i + 1] == '-';
            let d = if neg {
                raw.skip(i + 2)
            } else {
                raw.skip(i + 1)
            };
            &&& t.take(i) == raw.take(i)
            &&& t[i] == 'e'
            &&& t[i + 1] == (if neg {
                '-'
            } else {
                '+'
            })
            &&& t.len() == i + 2 + (if d.len() >= 2 {
                d.len() as int
            } else {
                2
            })
            &&& forall|j: int| i + 2 <= j < t.len() - d.len() ==> t[j] == '0'
            &&& t.skip(t.len() - d.len()) == d
        }),
{
    lemma_first_e(raw, i);
    let t = python_sci_text(raw);
    let exp = raw.skip(i + 1);
    let neg = i + 1 < raw.len() && raw[i + 1] == '-';
    assert(neg == (exp.len() > 0 && exp[0] == '-'));
    let d = if neg { raw.skip(i + 2) } else { raw.skip(i + 1) };
    if neg {
        assert(exp.skip(1) =~= raw.skip(i + 2));
    }
    let sign = if neg { '-' } else { '+' };
    assert(t == raw.take(i) + seq!['e', sign] + pad2(d));
    let z = if d.len() >= 2 { 0int } else { 2 - d.len() };
    assert(pad2(d).len() == z + d.len());
    assert forall|j: int| i + 2 <= j < t.len() - d.len() implies t[j] == '0' by {
        assert(t[j] == pad2(d)[j - i - 2]);
    }
    assert(t.skip(t.len() - d.len()) =~= d) by {
        assert forall|j: int| 0 <= j < d.len() implies t.skip(t.len() - d.len())[j] == d[j] by {
            assert(t[t.len() - d.len() + j] == pad2(d)[z + j]);
        }
    }
    assert(t.take(i) =~= raw.take(i));
}

/// What the rewrite has gathered from the prefix `p` of the text: before an
/// `'e'`, the mantissa so far; after it, whether a sign character has been
/// seen, whether it was `'-'`, and the exponent's digits (their number
/// counted no further than two).
spec fn gathered(
    p: Seq<char>,
    mantissa: Seq<char>,
    seen_e: bool,
    signed: bool,
    neg: bool,
    digits: Seq<char>,
    ndig: int,
) -> bool {
    if !p.contains('e') {
        &&& !seen_e
        &&& !signed
        &&& !neg
        &&& mantissa == p
        &&& digits.len() == 0
        &&& ndig == 0
    } else {
        let i = first_e(p);
        let exp = p.skip(i + 1);
        &&& seen_e
        &&& is_first_e(p, i)
        &&& mantissa == p.take(i)
        &&& signed == (exp.len() > 0)
        &&& neg == (exp.len() > 0 && exp[0] == '-')
        &&& digits == (if neg {
            exp.skip(1)
        } else {
            exp
        })
        &&& ndig == (if digits.len() >= 2 {
            2
        } else {
            digits.len() as int
        })
    }
}

/// Rewrites Rust's `{:.17e}` text of a float into Python's `format(v, ".17e")`
/// form: the exponent gets an explicit sign and at least two digits
/// (`5.77e-1` becomes `5.77e-01`, `1.25e1` becomes `1.25e+01`). `None` when
/// the text has no `'e'` (NaN and the infinities).
pub fn python_exponent(raw: &str) -> (out: Option<String>)
    ensures
        out is None <==> !raw@.contains('e'),
        out matches Some(o) ==> o@ == python_sci_text(raw@),
{
    let mut mantissa = String::new();
    let mut digits = String::new();
    let mut seen_e = false;
    let mut signed = false;
    let mut neg = false;
    let mut ndig: usize = 0;
    proof {
        assert(raw@.take(0) =~= Seq::<char>::empty());
    }
    for c in it: raw.chars()
        invariant
            it.seq() == raw@,
            gathered(
                raw@.take(it.index() as int),
                mantissa@,
                seen_e,
                signed,
                neg,
                digits@,
                ndig as int,
            ),
    {
        let ghost p = raw@.take(it.index() as int);
        proof {
            assert(raw@.take(it.index() + 1) =~= p.push(c));
        }
        if !seen_e {
            if c == 'e' {
                seen_e = true;
                proof {
                    lemma_first_e_push(p);
                    assert(digits@ =~= Seq::<char>::empty());
                }
            } else {
                push_char(&mut mantissa, c);
                proof {
                    lemma_no_e_push(p, c);
                }
            }
        } else {
            let ghost exp = p.skip(first_e(p) + 1);
            proof {
                lemma_after_e_push(p, c);
            }
            if !signed {
                proof {
                    assert(exp =~= Seq::<char>::empty());
                    assert(exp.push(c) =~= seq![c]);
                }
                signed = true;
                if c == '-' {
                    neg = true;
                    proof {
                        assert(exp.push(c).skip(1) =~= Seq::<char>::empty());
                    }
                } else {
                    push_char(&mut digits, c);
                    ndig = 1;
                    proof {
                        assert(exp.push(c) =~= seq![c]);
                    }
                }
            } else {
                push_char(&mut digits, c);
                if ndig < 2 {
                    ndig = ndig + 1;
                }
                proof {
                    if neg {
                        assert(exp.push(c).skip(1) =~= exp.skip(1).push(c));
                    }
                    assert(exp.push(c)[0] == exp[0]);
                }
            }
        }
    }
    proof {
        assert(raw@.take(raw@.len() as int) =~= raw@);
    }
    if !seen_e {
        return None;
    }
    let mut out = mantissa;
    push_char(&mut out, 'e');
    push_char(&mut out, if neg { '-' } else { '+' });
    let ghost before_pad = out@;
    if ndig == 0 {
        push_char(&mut out, '0');
        push_char(&mut out, '0');
    } else if ndig == 1 {
        push_char(&mut out, '0');
    }
    out.append(digits.as_str());
    proof {
        let exp = raw@.skip(first_e(raw@) + 1);
        let d = if neg { exp.skip(1) } else { exp };
        assert(d == digits@);
        assert(out@ =~= before_pad + pad2(d));
        assert(out@ =~= python_sci_text(raw@));
    }
    Some(out)
}

} // verus!
