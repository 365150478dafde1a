use vstd::prelude::*;

verus! {

/// Lexicographic order of character sequences, a proper prefix coming first.
pub open spec fn lex_less(x: Seq<char>, y: Seq<char>) -> bool
    decreases x.len(),
{
    if x.len() == 0 {
        y.len() > 0
    } else if y.len() == 0 {
        false
    } else if x[0] != y[0] {
        x[0] < y[0]
    } else {
        lex_less(x.drop_first(), y.drop_first())
    }
}

/// Index of the first `.` of a text, or its length when it has none.
pub open spec fn dot_index(s: Seq<char>) -> int
    decreases s.len(),
{
    if s.len() == 0 || s[0] == '.' {
        0
    } else {
        1 + dot_index(s.drop_first())
    }
}

/// Number of `0` characters at the start of a text.
pub open spec fn leading_zeros(s: Seq<char>) -> int
    decreases s.len(),
{
    if s.len() > 0 && s[0] == '0' {
        1 + leading_zeros(s.drop_first())
    } else {
        0
    }
}

/// Number of `0` characters at the end of a text.
pub open spec fn trailing_zeros(s: Seq<char>) -> int
    decreases s.len(),
{
    if s.len() > 0 && s.last() == '0' {
        1 + trailing_zeros(s.drop_last())
    } else {
        0
    }
}

/// The digits of a price before its decimal point, without leading zeros.
pub open spec fn whole_digits(s: Seq<char>) -> Seq<char> {
    let integer = s.take(dot_index(s));
    integer.skip(leading_zeros(integer))
}

/// The digits of a price after its decimal point, without trailing zeros.
pub open spec fn fraction_digits(s: Seq<char>) -> Seq<char> {
    let fraction = if dot_index(s) < s.len() {
        s.skip(dot_index(s) + 1)
    } else {
        Seq::<char>::empty()
    };
    fraction.take(fraction.len() - trailing_zeros(fraction))
}

/// Price order of two texts. For decimal numerals (`digits` or
/// `digits.digits`) it is the order of their values: the integer part with
/// more significant digits is larger, integer parts of equal length compare
/// digit by digit, and equal integer parts are decided by the fraction
/// digits. Other texts are ordered by the same rule applied to their characters.
pub open spec fn price_less(a: Seq<char>, b: Seq<char>) -> bool {
    let wa = whole_digits(a);
    let wb = whole_digits(b);
    ||| wa.len() < wb.len()
    ||| wa.len() == wb.len() && lex_less(wa, wb)
    ||| wa == wb && lex_less(fraction_digits(a), fraction_digits(b))
}

/// The two texts denote the same price (`100`, `100.0` and `0100.00` do).
pub open spec fn same_price(a: Seq<char>, b: Seq<char>) -> bool {
    whole_digits(a) == whole_digits(b) && fraction_digits(a) == fraction_digits(b)
}

proof fn lemma_lex_irreflexive(x: Seq<char>)
    ensures
        !lex_less(x, x),
    decreases x.len(),
{
    if x.len() > 0 {
        lemma_lex_irreflexive(x.drop_first());
    }
}

proof fn lemma_lex_transitive(x: Seq<char>, y: Seq<char>, z: Seq<char>)
    requires
        lex_less(x, y),
        lex_less(y, z),
    ensures
        lex_less(x, z),
    decreases x.len(),
{
    if x.len() > 0 && x[0] == y[0] && y[0] == z[0] {
        lemma_lex_transitive(x.drop_first(), y.drop_first(), z.drop_first());
    }
}

proof fn lemma_lex_total(x: Seq<char>, y: Seq<char>)
    requires
        x != y,
    ensures
        lex_less(x, y) || lex_less(y, x),
    decreases x.len(),
{
    if x.len() == 0 {
        assert(y.len() > 0) by {
            if y.len() == 0 {
                assert(x =~= y);
            }
        }
    } else if y.len() > 0 && x[0] == y[0] {
        if x.drop_first() == y.drop_first() {
            assert(x =~= seq![x[0]] + x.drop_first());
            assert(y =~= seq![y[0]] + y.drop_first());
        }
        lemma_lex_total(x.drop_first(), y.drop_first());
    }
}

/// The price order is a strict order: never both ways, and transitive.
pub proof fn lemma_price_order(a: Seq<char>, b: Seq<char>, c: Seq<char>)
    ensures
        !price_less(a, a),
        price_less(a, b) ==> !price_less(b, a),
        price_less(a, b) && price_less(b, c) ==> price_less(a, c),
        price_less(a, b) || price_less(b, a) || same_price(a, b),
{
    reveal(price_less);
    let wa = whole_digits(a);
    let wb = whole_digits(b);
    let wc = whole_digits(c);
    let fa = fraction_digits(a);
    let fb = fraction_digits(b);
    let fc = fraction_digits(c);
    lemma_lex_irreflexive(wa);
    lemma_lex_irreflexive(fa);
    if lex_less(wa, wb) && lex_less(wb, wa) {
        lemma_lex_transitive(wa, wb, wa);
    }
    if lex_less(fa, fb) && lex_less(fb, fa) {
        lemma_lex_transitive(fa, fb, fa);
    }
    if lex_less(wa, wb) && lex_less(wb, wc) {
        lemma_lex_transitive(wa, wb, wc);
    }
    if lex_less(fa, fb) && lex_less(fb, fc) {
        lemma_lex_transitive(fa, fb, fc);
    }
    if wa != wb {
        lemma_lex_total(wa, wb);
    }
    if fa != fb {
        lemma_lex_total(fa, fb);
    }
}

proof fn lemma_dot_index(s: Seq<char>)
    ensures
        0 <= dot_index(s) <= s.len(),
        forall|j: int| 0 <= j < dot_index(s) ==> s[j] != '.',
        dot_index(s) < s.len() ==> s[dot_index(s)] == '.',
    decreases s.len(),
{
    if s.len() > 0 && s[0] != '.' {
        lemma_dot_index(s.drop_first());
        assert forall|j: int| 0 <= j < dot_index(s) implies s[j] != '.' by {
            if j > 0 {
                assert(s[j] == s.drop_first()[j - 1]);
            }
        }
    }
}

proof fn lemma_leading_zeros(s: Seq<char>)
    ensures
        0 <= leading_zeros(s) <= s.len(),
        forall|j: int| 0 <= j < leading_zeros(s) ==> s[j] == '0',
        leading_zeros(s) < s.len() ==> s[leading_zeros(s)] != '0',
    decreases s.len(),
{
    if s.len() > 0 && s[0] == '0' {
        lemma_leading_zeros(s.drop_first());
        assert forall|j: int| 0 <= j < leading_zeros(s) implies s[j] == '0' by {
            if j > 0 {
                assert(s[j] == s.drop_first()[j - 1]);
            }
        }
    }
}

proof fn lemma_trailing_zeros(s: Seq<char>)
    ensures
        0 <= trailing_zeros(s) <= s.len(),
        forall|j: int| s.len() - trailing_zeros(s) <= j < s.len() ==> s[j] == '0',
        trailing_zeros(s) < s.len() ==> s[s.len() - trailing_zeros(s) - 1] != '0',
    decreases s.len(),
{
    if s.len() > 0 && s.last() == '0' {
        lemma_trailing_zeros(s.drop_last());
        assert forall|j: int| s.len() - trailing_zeros(s) <= j < s.len() implies s[j] == '0' by {
            if j < s.len() - 1 {
                assert(s[j] == s.drop_last()[j]);
            }
        }
        if trailing_zeros(s) < s.len() {
            assert(s[s.len() - trailing_zeros(s) - 1] == s.drop_last()[s.len() - trailing_zeros(s)
                - 1]);
        }
    }
}

/// The index of the first `.` of `s`, or its length.
fn find_dot(s: &str) -> (d: usize)
    ensures
        d == dot_index(s@),
{
    let n = s.unicode_len();
    let mut i: usize = 0;
    while i < n && s.get_char(i) != '.'
        invariant
            n == s@.len(),
            i <= n,
            forall|j: int| 0 <= j < i ==> s@[j] != '.',
        decreases n - i,
    {
        i = i + 1;
    }
    proof {
        lemma_dot_index(s@);
        let d = dot_index(s@);
        if d < i {
            assert(s@[d] == '.');
        } else if d > i {
            assert(s@[i as int] == '.');
        }
    }
    i
}

/// The range of `s` that holds the whole digits of a price, and the range that
/// holds its fraction digits.
fn price_ranges(s: &str) -> (r: (usize, usize, usize, usize))
    ensures
        r.0 <= r.1 <= r.2 <= r.3 <= s@.len(),
        s@.subrange(r.0 as int, r.1 as int) == whole_digits(s@),
        s@.subrange(r.2 as int, r.3 as int) == fraction_digits(s@),
{
    let n = s.unicode_len();
    let d = find_dot(s);
    proof {
        lemma_dot_index(s@);
    }
    let ghost integer = s@.take(d as int);
    let mut z: usize = 0;
    while z < d && s.get_char(z) == '0'
        invariant
            n == s@.len(),
            d <= n,
            z <= d,
            integer == s@.take(d as int),
            forall|j: int| 0 <= j < z ==> integer[j] == '0',
        decreases d - z,
    {
        z = z + 1;
    }
    proof {
        lemma_leading_zeros(integer);
        let c = leading_zeros(integer);
        if c < z {
            assert(integer[c] == '0');
        } else if c > z {
            assert(integer[z as int] == '0');
        }
        assert(integer.skip(z as int) =~= s@.subrange(z as int, d as int));
    }
    let start: usize = if d < n {
        d + 1
    } else {
        n
    };
    let ghost fraction = if dot_index(s@) < s@.len() {
        s@.skip(dot_index(s@) + 1)
    } else {
        Seq::<char>::empty()
    };
    proof {
        assert(fraction =~= s@.subrange(start as int, n as int));
    }
    let mut e: usize = n;
    while e > start && s.get_char(e - 1) == '0'
        invariant
            n == s@.len(),
            start <= e <= n,
            fraction == s@.subrange(start as int, n as int),
            forall|j: int| e <= j < n ==> s@[j] == '0',
        decreases e - start,
    {
        e = e - 1;
    }
    proof {
        lemma_trailing_zeros(fraction);
        let t = trailing_zeros(fraction);
        let len = fraction.len();
        let kept = (e - start) as int;
        if len - t < kept {
            assert(fraction[kept - 1] == s@[e - 1]);
        } else if len - t > kept {
            assert(fraction[kept] == s@[e as int]);
            assert(fraction[len - t - 1] == '0');
        }
        assert(fraction.take(len - t) =~= s@.subrange(start as int, e as int));
    }
    (z, d, start, e)
}

/// Compares two ranges of texts lexicographically.
fn lex_less_ranges(a: &str, a0: usize, a1: usize, b: &str, b0: usize, b1: usize) -> (r: bool)
    requires
        a0 <= a1 <= a@.len(),
        b0 <= b1 <= b@.len(),
    ensures
        r == lex_less(a@.subrange(a0 as int, a1 as int), b@.subrange(b0 as int, b1 as int)),
{
    let la = a1 - a0;
    let lb = b1 - b0;
    let mut i: usize = 0;
    while i < la && i < lb && a.get_char(a0 + i) == b.get_char(b0 + i)
        invariant
            a0 <= a1 <= a@.len(),
            b0 <= b1 <= b@.len(),
            la == a1 - a0,
            lb == b1 - b0,
            i <= la,
            i <= lb,
            lex_less(a@.subrange(a0 as int, a1 as int), b@.subrange(b0 as int, b1 as int))
                == lex_less(a@.subrange(a0 + i, a1 as int), b@.subrange(b0 + i, b1 as int)),
        decreases la - i,
    {
        proof {
            let x = a@.subrange(a0 + i, a1 as int);
            let y = b@.subrange(b0 + i, b1 as int);
            assert(x[0] == a@[a0 + i]);
            assert(y[0] == b@[b0 + i]);
            assert(x.drop_first() =~= a@.subrange(a0 + i + 1, a1 as int));
            assert(y.drop_first() =~= b@.subrange(b0 + i + 1, b1 as int));
        }
        i = i + 1;
    }
    if i == la {
        i < lb
    } else if i == lb {
        false
    } else {
        proof {
            let x = a@.subrange(a0 + i, a1 as int);
            let y = b@.subrange(b0 + i, b1 as int);
            assert(x[0] == a@[a0 + i]);
            assert(y[0] == b@[b0 + i]);
        }
        a.get_char(a0 + i) < b.get_char(b0 + i)
    }
}

/// `a` is a lower price than `b`.
pub fn is_lower_price(a: &str, b: &str) -> (r: bool)
    ensures
        r == price_less(a@, b@),
{
    reveal(price_less);
    let (wa0, wa1, fa0, fa1) = price_ranges(a);
    let (wb0, wb1, fb0, fb1) = price_ranges(b);
    let ghost wa = whole_digits(a@);
    let ghost wb = whole_digits(b@);
    if wa1 - wa0 != wb1 - wb0 {
        return wa1 - wa0 < wb1 - wb0;
    }
    if lex_less_ranges(a, wa0, wa1, b, wb0, wb1) {
        return true;
    }
    if lex_less_ranges(b, wb0, wb1, a, wa0, wa1) {
        proof {
            lemma_lex_irreflexive(wa);
        }
        return false;
    }
    proof {
        if wa != wb {
            lemma_lex_total(wa, wb);
        }
    }
    lex_less_ranges(a, fa0, fa1, b, fb0, fb1)
}

} // verus!
