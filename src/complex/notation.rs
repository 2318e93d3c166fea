//! The textual notation of complex numbers, `[<real>][<sign><imag>i]`.
//!
//! Reading a complex number happens in two stages. This module does the first:
//! it trims the text, cuts it into signed terms and classifies each term as the
//! real or the imaginary one, keeping the numeric text of each as it stands.
//! Turning that text into numbers is the second stage. The module also lays out
//! the rendering of a complex number from the text of its two parts.
use vstd::prelude::*;
use vstd::string::*;

verus! {

/// What `str::trim` returns for a text: the text without its leading and
/// trailing white space.
pub uninterp spec fn trimmed(s: Seq<char>) -> Seq<char>;

/// Relies on `str::trim`, which removes leading and trailing white space.
#[verifier::external_body]
fn trim_text(s: &str) -> (r: &str)
    ensures
        r@ == trimmed(s@),
{
    s.trim()
}

pub open spec fn is_sign(c: char) -> bool {
    c == '+' || c == '-'
}

pub open spec fn is_exponent_marker(c: char) -> bool {
    c == 'e' || c == 'E'
}

/// A new term starts at position `k` of `s`: a sign that does not follow an
/// exponent marker, anywhere but at the very start.
pub open spec fn starts_term(s: Seq<char>, k: int) -> bool {
    &&& 0 < k < s.len()
    &&& is_sign(s[k])
    &&& !is_exponent_marker(s[k - 1])
}

/// Where the term holding position `n - 1` of `s` starts.
pub open spec fn term_start(s: Seq<char>, n: int) -> int
    decreases n,
{
    if n <= 1 {
        0
    } else if starts_term(s, n - 1) {
        n - 1
    } else {
        term_start(s, n - 1)
    }
}

/// The terms of the first `n` characters of `s`: the pieces between the
/// positions where a new term starts.
pub open spec fn terms_upto(s: Seq<char>, n: int) -> Seq<Seq<char>>
    decreases n,
{
    if n <= 0 {
        Seq::empty()
    } else {
        let k = term_start(s, n);
        if 0 <= k < n {
            terms_upto(s, k).push(s.subrange(k, n))
        } else {
            Seq::empty()
        }
    }
}

/// The signed terms of `s`.
pub open spec fn terms(s: Seq<char>) -> Seq<Seq<char>> {
    terms_upto(s, s.len() as int)
}

pub open spec fn has_i(s: Seq<char>) -> bool {
    s.contains('i')
}

/// `s` without the `i` characters at its end.
pub open spec fn strip_trailing_i(s: Seq<char>) -> Seq<char>
    decreases s.len(),
{
    if s.len() > 0 && s.last() == 'i' {
        strip_trailing_i(s.drop_last())
    } else {
        s
    }
}

/// The coefficient of an imaginary term.
#[derive(Debug, Clone, PartialEq)]
pub enum Coefficient {
    /// A bare `i` or `+i`.
    One,
    /// A bare `-i`.
    MinusOne,
    /// The numeric text in front of the `i`.
    Text(String),
}

/// One term of the notation, with its numeric text.
#[derive(Debug, Clone, PartialEq)]
pub enum Term {
    Real(String),
    Imaginary(Coefficient),
}

/// Why a text is no complex number at the stage of this module.
#[derive(Debug, PartialEq, Eq, Structural)]
pub enum NotationError {
    /// Nothing but white space.
    Empty,
}

/// `c` is the coefficient written as `m`, the text in front of the `i`.
pub open spec fn is_coefficient(c: Coefficient, m: Seq<char>) -> bool {
    match c {
        Coefficient::One => m == Seq::<char>::empty() || m == seq!['+'],
        Coefficient::MinusOne => m == seq!['-'],
        Coefficient::Text(x) => m != Seq::<char>::empty() && m != seq!['+'] && m != seq!['-'] && x@ == m,
    }
}

/// `t` is the term written as `text`: imaginary when the text holds an `i`,
/// real otherwise.
pub open spec fn is_term(t: Term, text: Seq<char>) -> bool {
    match t {
        Term::Real(x) => !has_i(text) && x@ == text,
        Term::Imaginary(c) => has_i(text) && is_coefficient(c, strip_trailing_i(text)),
    }
}

/// `ts` are the terms of the trimmed text `t`: the whole text as one real term
/// when it holds no `i`, otherwise its signed terms, each classified.
pub open spec fn is_reading(ts: Seq<Term>, t: Seq<char>) -> bool {
    if !has_i(t) {
        ts.len() == 1 && (ts[0] matches Term::Real(x) && x@ == t)
    } else {
        &&& ts.len() == terms(t).len()
        &&& forall|k: int| 0 <= k < ts.len() ==> is_term(#[trigger] ts[k], terms(t)[k])
    }
}

/// The views of a sequence of strings.
pub open spec fn texts(v: Seq<String>) -> Seq<Seq<char>> {
    v.map_values(|x: String| x@)
}

/// With no new term starting after `start` (a term start) and before `n`,
/// the term holding position `n - 1` starts at `start`.
proof fn lemma_term_start(s: Seq<char>, start: int, n: int)
    requires
        0 <= start < n,
        start == 0 || starts_term(s, start),
        forall|m: int| start < m < n ==> !starts_term(s, m),
    ensures
        term_start(s, n) == start,
    decreases n,
{
    if n > 1 && !starts_term(s, n - 1) && start < n - 1 {
        lemma_term_start(s, start, n - 1);
    }
}

/// The texts of `ts` one after another.
pub open spec fn joined(ts: Seq<Seq<char>>) -> Seq<char>
    decreases ts.len(),
{
    if ts.len() == 0 {
        Seq::empty()
    } else {
        joined(ts.drop_last()) + ts.last()
    }
}

proof fn lemma_term_start_range(s: Seq<char>, n: int)
    requires
        n >= 1,
    ensures
        0 <= term_start(s, n) < n,
        term_start(s, n) == 0 || starts_term(s, term_start(s, n)),
    decreases n,
{
    if n > 1 && !starts_term(s, n - 1) {
        lemma_term_start_range(s, n - 1);
    }
}

proof fn lemma_terms_upto_join(s: Seq<char>, n: int)
    requires
        0 <= n <= s.len(),
    ensures
        joined(terms_upto(s, n)) == s.subrange(0, n),
        forall|k: int| 0 <= k < terms_upto(s, n).len() ==> (#[trigger] terms_upto(s, n)[k]).len() > 0,
    decreases n,
{
    if n > 0 {
        lemma_term_start_range(s, n);
        let k = term_start(s, n);
        lemma_terms_upto_join(s, k);
        let ts = terms_upto(s, n);
        assert(ts.drop_last() == terms_upto(s, k));
        assert(s.subrange(0, k) + s.subrange(k, n) =~= s.subrange(0, n));
        assert forall|q: int| 0 <= q < ts.len() implies (#[trigger] ts[q]).len() > 0 by {
            if q < ts.len() - 1 {
                assert(ts[q] == terms_upto(s, k)[q]);
            }
        }
    } else {
        assert(s.subrange(0, 0) =~= Seq::<char>::empty());
    }
}

/// Cutting a text into its terms loses nothing: the terms, none of them
/// empty, put back one after another give the text.
pub proof fn lemma_terms_rejoin(s: Seq<char>)
    ensures
        joined(terms(s)) == s,
        forall|k: int| 0 <= k < terms(s).len() ==> (#[trigger] terms(s)[k]).len() > 0,
{
    lemma_terms_upto_join(s, s.len() as int);
    assert(s.subrange(0, s.len() as int) =~= s);
}

/// Cuts `s` into its signed terms: a new term starts at every `+` or `-` that
/// is not the first character and does not follow an exponent marker.
pub fn split_terms(s: &str) -> (r: Vec<String>)
    ensures
        texts(r@) == terms(s@),
{
    let n = s.unicode_len();
    let mut out: Vec<String> = Vec::new();
    if n == 0 {
        proof {
            assert(texts(out@) =~= terms(s@));
        }
        return out;
    }
    let mut start: usize = 0;
    let mut k: usize = 1;
    proof {
        assert(texts(out@) =~= terms_upto(s@, 0));
    }
    while k < n
        invariant
            n == s@.len(),
            start < k <= n,
            start == 0 || starts_term(s@, start as int),
            forall|m: int| start < m < k ==> !starts_term(s@, m),
            texts(out@) == terms_upto(s@, start as int),
        decreases n - k,
    {
        let c = s.get_char(k);
        let before = s.get_char(k - 1);
        if (c == '+' || c == '-') && before != 'e' && before != 'E' {
            let piece = s.substring_char(start, k).to_owned();
            proof {
                lemma_term_start(s@, start as int, k as int);
                assert(terms_upto(s@, k as int) == terms_upto(s@, start as int).push(s@.subrange(start as int, k as int)));
            }
            let ghost prev = out@;
            out.push(piece);
            proof {
                assert(texts(out@) =~= texts(prev).push(piece@));
            }
            start = k;
        }
        k += 1;
    }
    let piece = s.substring_char(start, n).to_owned();
    proof {
        lemma_term_start(s@, start as int, n as int);
        assert(terms_upto(s@, n as int) == terms_upto(s@, start as int).push(s@.subrange(start as int, n as int)));
    }
    let ghost prev = out@;
    out.push(piece);
    proof {
        assert(texts(out@) =~= texts(prev).push(piece@));
    }
    out
}

/// Whether `s` holds an `i`.
fn contains_i(s: &str) -> (r: bool)
    ensures
        r == has_i(s@),
{
    let n = s.unicode_len();
    let mut k: usize = 0;
    while k < n
        invariant
            n == s@.len(),
            k <= n,
            forall|m: int| 0 <= m < k ==> s@[m] != 'i',
        decreases n - k,
    {
        if s.get_char(k) == 'i' {
            proof {
                assert(s@[k as int] == 'i');
            }
            return true;
        }
        k += 1;
    }
    false
}

/// Taking away an `i` at the end of `s` does not change what remains once all
/// of them are taken away.
proof fn lemma_strip_prefix(s: Seq<char>, m: int)
    requires
        0 < m <= s.len(),
        s[m - 1] == 'i',
    ensures
        strip_trailing_i(s.subrange(0, m)) == strip_trailing_i(s.subrange(0, m - 1)),
{
    assert(s.subrange(0, m).drop_last() =~= s.subrange(0, m - 1));
}

/// The text in front of the trailing `i` characters of `s`.
fn without_trailing_i(s: &str) -> (r: &str)
    ensures
        r@ == strip_trailing_i(s@),
{
    let n = s.unicode_len();
    let mut m: usize = n;
    proof {
        assert(s@.subrange(0, n as int) =~= s@);
    }
    while m > 0 && s.get_char(m - 1) == 'i'
        invariant
            n == s@.len(),
            m <= n,
            strip_trailing_i(s@.subrange(0, m as int)) == strip_trailing_i(s@),
        decreases m,
    {
        proof {
            lemma_strip_prefix(s@, m as int);
        }
        m -= 1;
    }
    s.substring_char(0, m)
}

/// The coefficient written as `m`, the text in front of an `i`.
fn coefficient(m: &str) -> (c: Coefficient)
    ensures
        is_coefficient(c, m@),
{
    let n = m.unicode_len();
    if n == 0 {
        proof {
            assert(m@ =~= Seq::<char>::empty());
        }
        return Coefficient::One;
    }
    if n == 1 {
        let c = m.get_char(0);
        if c == '+' {
            proof {
                assert(m@ =~= seq!['+']);
            }
            return Coefficient::One;
        } else if c == '-' {
            proof {
                assert(m@ =~= seq!['-']);
            }
            return Coefficient::MinusOne;
        }
        proof {
            assert(m@ != seq!['+']);
            assert(m@ != seq!['-']);
        }
    }
    proof {
        if n > 1 {
            assert(m@.len() != seq!['+'].len());
            assert(m@.len() != seq!['-'].len());
        }
    }
    Coefficient::Text(m.to_owned())
}

/// The term written as `text`.
pub fn classify(text: &str) -> (t: Term)
    ensures
        is_term(t, text@),
{
    if contains_i(text) {
        Term::Imaginary(coefficient(without_trailing_i(text)))
    } else {
        Term::Real(text.to_owned())
    }
}

/// Reads `s` as the terms of a complex number, with their numeric text.
///
/// The text is trimmed first; nothing left is an error. A text without an `i`
/// is one real term as a whole. Otherwise it is cut into its signed terms
/// (see `split_terms`), each real or imaginary by whether it holds an `i`.
/// Where several terms of one kind appear, the value of the last one counts.
pub fn complex_terms(s: &str) -> (r: Result<Vec<Term>, NotationError>)
    ensures
        r is Err <==> trimmed(s@).len() == 0,
        r matches Ok(ts) ==> is_reading(ts@, trimmed(s@)),
{
    let t = trim_text(s);
    if t.unicode_len() == 0 {
        return Err(NotationError::Empty);
    }
    if !contains_i(t) {
        let mut ts: Vec<Term> = Vec::new();
        ts.push(Term::Real(t.to_owned()));
        return Ok(ts);
    }
    let pieces = split_terms(t);
    let mut ts: Vec<Term> = Vec::new();
    let mut k: usize = 0;
    while k < pieces.len()
        invariant
            k <= pieces@.len(),
            texts(pieces@) == terms(t@),
            ts@.len() == k,
            forall|q: int| 0 <= q < k ==> is_term(#[trigger] ts@[q], terms(t@)[q]),
        decreases pieces@.len() - k,
    {
        let term = classify(pieces[k].as_str());
        proof {
            assert(texts(pieces@)[k as int] == pieces@[k as int]@);
        }
        ts.push(term);
        k += 1;
    }
    proof {
        assert(texts(pieces@).len() == pieces@.len());
    }
    Ok(ts)
}

/// The rendering of a complex number from the text of its parts: the real
/// part alone when the imaginary part is zero, otherwise the real part, an
/// explicit `+` before a non-negative imaginary part, the imaginary part and
/// `i`.
pub open spec fn cartesian(re: Seq<char>, im: Seq<char>, imag_is_zero: bool, imag_non_negative: bool) -> Seq<char> {
    if imag_is_zero {
        re
    } else if imag_non_negative {
        re + seq!['+'] + im + seq!['i']
    } else {
        re + im + seq!['i']
    }
}

/// Lays out a complex number from the text of its real and imaginary parts.
pub fn cartesian_text(re: &str, im: &str, imag_is_zero: bool, imag_non_negative: bool) -> (r: String)
    ensures
        r@ == cartesian(re@, im@, imag_is_zero, imag_non_negative),
{
    let mut out = re.to_owned();
    if imag_is_zero {
        return out;
    }
    if imag_non_negative {
        out.append("+");
    }
    out.append(im);
    out.append("i");
    proof {
        reveal_strlit("+");
        reveal_strlit("i");
        if imag_non_negative {
            assert(out@ =~= re@ + seq!['+'] + im@ + seq!['i']);
        } else {
            assert(out@ =~= re@ + im@ + seq!['i']);
        }
    }
    out
}

} // verus!
