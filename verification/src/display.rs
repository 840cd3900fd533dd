//! The canonical printer: nodes and polynomials as text.
//!
//! The text is for people. Nothing else in the library depends on it.

use vstd::prelude::*;
use itertools::Itertools;
use crate::builder::strings_view;
use crate::monomial::{base_view, mono_below, Base, Monomial};
use crate::node::{handles_below, node_below, Cache, Node, NodeRc, NodeView, Store};
use crate::poly::{canon, lemma_coeff_at, poly_below, Poly, Term};
use crate::rational::{abs, Rational};

verus! {

/// The character of a decimal digit.
pub open spec fn digit_char(d: int) -> char {
    if d == 0 {
        '0'
    } else if d == 1 {
        '1'
    } else if d == 2 {
        '2'
    } else if d == 3 {
        '3'
    } else if d == 4 {
        '4'
    } else if d == 5 {
        '5'
    } else if d == 6 {
        '6'
    } else if d == 7 {
        '7'
    } else if d == 8 {
        '8'
    } else {
        '9'
    }
}

/// The superscript character of a decimal digit.
pub open spec fn super_char(d: int) -> char {
    if d == 0 {
        '⁰'
    } else if d == 1 {
        '¹'
    } else if d == 2 {
        '²'
    } else if d == 3 {
        '³'
    } else if d == 4 {
        '⁴'
    } else if d == 5 {
        '⁵'
    } else if d == 6 {
        '⁶'
    } else if d == 7 {
        '⁷'
    } else if d == 8 {
        '⁸'
    } else {
        '⁹'
    }
}

/// The decimal digits of a natural number, in plain or in superscript
/// characters.
pub open spec fn nat_text(n: nat, raised: bool) -> Seq<char>
    decreases n,
{
    let c = if raised { super_char((n % 10) as int) } else { digit_char((n % 10) as int) };
    if n < 10 {
        seq![c]
    } else {
        nat_text(n / 10, raised).push(c)
    }
}

/// An integer in superscript characters.
pub open spec fn int_super_spec(i: int) -> Seq<char> {
    if i < 0 {
        seq!['⁻'] + nat_text((-i) as nat, true)
    } else {
        nat_text(i as nat, true)
    }
}

/// The texts joined, with `sep` between each two.
pub open spec fn join_spec(parts: Seq<Seq<char>>, sep: Seq<char>) -> Seq<char>
    decreases parts.len(),
{
    if parts.len() == 0 {
        Seq::empty()
    } else if parts.len() == 1 {
        parts[0]
    } else {
        join_spec(parts.drop_last(), sep) + sep + parts.last()
    }
}

/// The text of a node: its tokens with single spaces between them.
pub open spec fn node_text(s: Store, h: NodeRc) -> Seq<char>
    decreases h.id, 3nat, 0nat,
{
    join_spec(node_tokens(s, h), seq![' '])
}

/// The tokens of a node. A function application is one token,
/// `name(argument)`; a variable is its name; a tuple is one token, its
/// elements in parentheses with `, ` between them; a polynomial has the
/// tokens of its terms.
pub open spec fn node_tokens(s: Store, h: NodeRc) -> Seq<Seq<char>>
    decreases h.id, 2nat, 0nat,
{
    match s[h.id as int] {
        NodeView::Func(f, g) => {
            let inner = if g.id < h.id { node_text(s, g) } else { Seq::empty() };
            seq![f.spec_name() + seq!['('] + inner + seq![')']]
        },
        NodeView::Poly(p) => poly_tokens(Seq::empty(), s, canon(p), h.id),
        NodeView::Var(name) => seq![name],
        NodeView::Tuple(parts) => seq![seq!['('] + join_spec(list_texts(s, parts, h.id), seq![',', ' ']) + seq![')']],
    }
}

/// The texts of the nodes of a list.
pub open spec fn list_texts(s: Store, parts: Seq<NodeRc>, limit: usize) -> Seq<Seq<char>>
    decreases limit, 0nat, parts.len() + 1,
{
    if parts.len() == 0 {
        Seq::empty()
    } else {
        let text = if parts.last().id < limit { node_text(s, parts.last()) } else { Seq::empty() };
        list_texts(s, parts.drop_last(), limit).push(text)
    }
}

/// The text of one factor of a monomial: the base, with its exponent in
/// superscript unless it is 1.
pub open spec fn factor_text(s: Store, factor: (NodeRc, int), limit: usize) -> Seq<char>
    decreases limit, 0nat, 0nat,
{
    let text = if factor.0.id < limit { node_text(s, factor.0) } else { Seq::empty() };
    if factor.1 == 1 {
        text
    } else {
        text + int_super_spec(factor.1)
    }
}

/// The tokens of a monomial: one for each factor.
pub open spec fn base_tokens(s: Store, base: Monomial, limit: usize) -> Seq<Seq<char>>
    decreases limit, 0nat, base.len() + 1,
{
    if base.len() == 0 {
        Seq::empty()
    } else {
        base_tokens(s, base.drop_last(), limit).push(factor_text(s, base.last(), limit))
    }
}

/// The tokens of the sign and the numerator of a term: `-` for a negative
/// term, `+` before a positive term that is not the first, and the
/// magnitude of the numerator unless it is 1 and the monomial is not empty.
pub open spec fn head_tokens(t: Term, first: bool) -> Seq<Seq<char>> {
    let sign: Seq<Seq<char>> = if t.fac.num < 0 {
        seq![seq!['-']]
    } else if !first {
        seq![seq!['+']]
    } else {
        Seq::empty()
    };
    if abs(t.fac.num) != 1 || t.base.len() == 0 {
        sign.push(nat_text(abs(t.fac.num) as nat, false))
    } else {
        sign
    }
}

/// The tokens of the denominator of a term: `/` and the denominator,
/// unless it is 1.
pub open spec fn tail_tokens(t: Term) -> Seq<Seq<char>> {
    if t.fac.den == 1 {
        Seq::empty()
    } else {
        seq![seq!['/'], nat_text(t.fac.den as nat, false)]
    }
}

/// The tokens of a term.
pub open spec fn term_tokens(s: Store, t: Term, first: bool, limit: usize) -> Seq<Seq<char>>
    decreases limit, 0nat, t.base.len() + 2,
{
    head_tokens(t, first) + base_tokens(s, t.base, limit) + tail_tokens(t)
}

/// The tokens of the terms, one term after the other.
pub open spec fn terms_tokens(s: Store, terms: Seq<Term>, limit: usize) -> Seq<Seq<char>>
    decreases limit, 1nat, terms.len(),
{
    if terms.len() == 0 {
        Seq::empty()
    } else {
        terms_tokens(s, terms.drop_last(), limit) + term_tokens(s, terms.last(), terms.len() == 1, limit)
    }
}

/// The tokens after a polynomial was added to `before`: those of its
/// terms, or `0` if there is no token at all.
pub open spec fn poly_tokens(before: Seq<Seq<char>>, s: Store, terms: Seq<Term>, limit: usize) -> Seq<Seq<char>>
    decreases limit, 1nat, terms.len() + 1,
{
    let tokens = before + terms_tokens(s, terms, limit);
    if tokens.len() == 0 {
        seq![seq!['0']]
    } else {
        tokens
    }
}

/// The text of a polynomial by itself: `0` if it has no terms, and else
/// the tokens of its terms with spaces between them, in parentheses if
/// there are two terms or more.
pub open spec fn poly_text(s: Store, terms: Seq<Term>, limit: usize) -> Seq<char> {
    let text = join_spec(terms_tokens(s, terms, limit), seq![' ']);
    if terms.len() == 0 {
        seq!['0']
    } else if terms.len() > 1 {
        seq!['('] + text + seq![')']
    } else {
        text
    }
}

/// The text of a polynomial as a factor: its tokens with spaces between
/// them, in parentheses if there are two tokens or more.
pub open spec fn wrap_poly_spec(s: Store, terms: Seq<Term>, limit: usize) -> Seq<char> {
    let tokens = poly_tokens(Seq::empty(), s, terms, limit);
    let text = join_spec(tokens, seq![' ']);
    if tokens.len() > 1 {
        seq!['('] + text + seq![')']
    } else {
        text
    }
}

/// The texts joined, with `sep` between each two.
///
/// This is `join` of `itertools::Itertools` on the strings: the first
/// string, then for each further one `sep` and the string.
#[verifier::external_body]
fn join(parts: &Vec<String>, sep: &str) -> (r: String)
    ensures
        r@ == join_spec(strings_view(parts@), sep@),
{
    parts.iter().join(sep)
}

/// The text of a decimal digit, plain or in superscript.
fn digit_str(d: u64, raised: bool) -> (r: &'static str)
    requires
        d < 10,
    ensures
        r@ == seq![if raised { super_char(d as int) } else { digit_char(d as int) }],
{
    proof {
        reveal_strlit("0");
        reveal_strlit("1");
        reveal_strlit("2");
        reveal_strlit("3");
        reveal_strlit("4");
        reveal_strlit("5");
        reveal_strlit("6");
        reveal_strlit("7");
        reveal_strlit("8");
        reveal_strlit("9");
        reveal_strlit("⁰");
        reveal_strlit("¹");
        reveal_strlit("²");
        reveal_strlit("³");
        reveal_strlit("⁴");
        reveal_strlit("⁵");
        reveal_strlit("⁶");
        reveal_strlit("⁷");
        reveal_strlit("⁸");
        reveal_strlit("⁹");
    }
    let r = if raised {
        if d == 0 {
            "⁰"
        } else if d == 1 {
            "¹"
        } else if d == 2 {
            "²"
        } else if d == 3 {
            "³"
        } else if d == 4 {
            "⁴"
        } else if d == 5 {
            "⁵"
        } else if d == 6 {
            "⁶"
        } else if d == 7 {
            "⁷"
        } else if d == 8 {
            "⁸"
        } else {
            "⁹"
        }
    } else {
        if d == 0 {
            "0"
        } else if d == 1 {
            "1"
        } else if d == 2 {
            "2"
        } else if d == 3 {
            "3"
        } else if d == 4 {
            "4"
        } else if d == 5 {
            "5"
        } else if d == 6 {
            "6"
        } else if d == 7 {
            "7"
        } else if d == 8 {
            "8"
        } else {
            "9"
        }
    };
    assert(r@ =~= seq![if raised { super_char(d as int) } else { digit_char(d as int) }]);
    r
}

/// The decimal digits of `n`, plain or in superscript.
pub fn nat_string(n: u64, raised: bool) -> (r: String)
    ensures
        r@ == nat_text(n as nat, raised),
{
    let mut out = String::from_str(digit_str(n % 10, raised));
    let mut rest = n / 10;
    let ghost mut shown: nat = n as nat;
    assert(out@ =~= seq![if raised { super_char((n % 10) as int) } else { digit_char((n % 10) as int) }]);
    while rest > 0
        invariant
            rest == shown / 10,
            nat_text(n as nat, raised) == (if shown < 10 {
                out@
            } else {
                nat_text(shown / 10, raised) + out@
            }),
        decreases rest,
    {
        let ghost before = out@;
        let mut next = String::from_str(digit_str(rest % 10, raised));
        next.append(out.as_str());
        out = next;
        proof {
            let c = if raised { super_char((rest % 10) as int) } else { digit_char((rest % 10) as int) };
            assert(out@ =~= seq![c] + before);
            if rest >= 10 {
                assert(nat_text(rest as nat, raised) + before =~= nat_text((rest / 10) as nat, raised) + out@);
            } else {
                assert(nat_text(rest as nat, raised) + before =~= out@);
            }
            shown = rest as nat;
        }
        rest = rest / 10;
    }
    out
}

/// The magnitude of an integer.
fn magnitude(i: i64) -> (r: u64)
    ensures
        r == abs(i as int),
{
    if i >= 0 {
        i as u64
    } else if i == i64::MIN {
        0x8000_0000_0000_0000
    } else {
        (0 - i) as u64
    }
}

/// The integer in superscript characters.
pub fn int_super(i: i64) -> (r: String)
    ensures
        r@ == int_super_spec(i as int),
{
    let digits = nat_string(magnitude(i), true);
    if i < 0 {
        proof {
            reveal_strlit("⁻");
            assert("⁻"@ =~= seq!['⁻']);
        }
        String::from_str("⁻").concat(digits.as_str())
    } else {
        digits
    }
}

/// A list of tokens.
pub struct Tokens {
    content: Vec<String>,
}

impl View for Tokens {
    type V = Seq<Seq<char>>;

    closed spec fn view(&self) -> Seq<Seq<char>> {
        strings_view(self.content@)
    }
}

impl Tokens {
    pub fn new() -> (r: Tokens)
        ensures
            r@ == Seq::<Seq<char>>::empty(),
    {
        let r = Tokens { content: Vec::new() };
        assert(r@ =~= Seq::<Seq<char>>::empty());
        r
    }

    pub fn len(&self) -> (r: usize)
        ensures
            r == self@.len(),
    {
        self.content.len()
    }

    /// Adds a token.
    pub fn push(&mut self, t: &str)
        ensures
            final(self)@ == old(self)@.push(t@),
    {
        self.content.push(String::from_str(t));
        assert(self@ =~= old(self)@.push(t@));
    }

    /// The tokens with single spaces between them.
    pub fn to_string(&self) -> (r: String)
        ensures
            r@ == join_spec(self@, seq![' ']),
    {
        let ghost tokens = self@;
        let mut out = String::new();
        let mut i: usize = 0;
        proof {
            reveal_strlit(" ");
            assert(" "@ =~= seq![' ']);
            assert(tokens.take(0) =~= Seq::<Seq<char>>::empty());
        }
        while i < self.content.len()
            invariant
                i <= self.content@.len(),
                tokens == self@,
                tokens.len() == self.content@.len(),
                " "@ == seq![' '],
                out@ == join_spec(tokens.take(i as int), seq![' ']),
            decreases self.content@.len() - i,
        {
            let ghost before = out@;
            if i > 0 {
                out.append(" ");
            }
            out.append(self.content[i].as_str());
            proof {
                let next = tokens.take(i + 1);
                assert(next.drop_last() =~= tokens.take(i as int));
                assert(next.last() == self.content@[i as int]@);
                if i == 0 {
                    assert(next[0] == next.last());
                    assert(out@ =~= next[0]);
                } else {
                    assert(out@ =~= before + seq![' '] + next.last());
                }
            }
            i += 1;
        }
        proof {
            assert(tokens.take(i as int) =~= tokens);
        }
        out
    }

    /// Adds the tokens of the factors of a monomial.
    fn base(&mut self, cache: &Cache, base: &Base, limit: usize)
        requires
            cache.wf(),
            limit <= cache@.len(),
            mono_below(base_view(base@), limit as int),
        ensures
            final(self)@ == old(self)@ + base_tokens(cache@, base_view(base@), limit),
        decreases limit, 0nat,
    {
        let ghost mono = base_view(base@);
        let mut i: usize = 0;
        proof {
            assert(mono.take(0) =~= Seq::<(NodeRc, int)>::empty());
            assert(self@ =~= old(self)@ + base_tokens(cache@, mono.take(0), limit));
        }
        while i < base.len()
            invariant
                i <= base@.len(),
                cache.wf(),
                limit <= cache@.len(),
                mono == base_view(base@),
                mono_below(mono, limit as int),
                self@ == old(self)@ + base_tokens(cache@, mono.take(i as int), limit),
            decreases base@.len() - i,
        {
            let (v, e) = base[i];
            let ghost before = self@;
            proof {
                assert(mono.take(i + 1).drop_last() =~= mono.take(i as int));
                assert(mono.take(i + 1).last() == (v, e as int));
                assert(mono[i as int].0.id < limit);
            }
            let text = Tokens::node(cache, v).to_string();
            assert(text@ == node_text(cache@, v));
            if e == 1 {
                self.push(text.as_str());
            } else {
                let raised = int_super(e);
                self.push(text.concat(raised.as_str()).as_str());
            }
            proof {
                let token = factor_text(cache@, (v, e as int), limit);
                let done = base_tokens(cache@, mono.take(i as int), limit);
                assert(self@ == before.push(token));
                assert(base_tokens(cache@, mono.take(i + 1), limit) == done.push(token));
                assert(before.push(token) =~= old(self)@ + done.push(token));
            }
            i += 1;
        }
        proof {
            assert(mono.take(i as int) =~= mono);
        }
    }

    /// Adds the tokens of one term.
    fn term(&mut self, cache: &Cache, base: &Base, fac: Rational, first: bool, limit: usize)
        requires
            cache.wf(),
            limit <= cache@.len(),
            mono_below(base_view(base@), limit as int),
            fac@.den > 0,
        ensures
            final(self)@ == old(self)@ + term_tokens(
                cache@,
                Term { base: base_view(base@), fac: fac@ },
                first,
                limit,
            ),
        decreases limit, 1nat,
    {
        let ghost t = Term { base: base_view(base@), fac: fac@ };
        proof {
            reveal_strlit("-");
            reveal_strlit("+");
            reveal_strlit("/");
            assert("-"@ =~= seq!['-']);
            assert("+"@ =~= seq!['+']);
            assert("/"@ =~= seq!['/']);
        }
        let (nom, denom) = fac.frac();
        if nom < 0 {
            self.push("-");
        } else if !first {
            self.push("+");
        }
        if magnitude(nom) != 1 || base.len() == 0 {
            self.push(nat_string(magnitude(nom), false).as_str());
        }
        assert(self@ =~= old(self)@ + head_tokens(t, first));
        let ghost middle = self@;
        self.base(cache, base, limit);
        let ghost late = self@;
        if denom != 1 {
            self.push("/");
            self.push(nat_string(magnitude(denom), false).as_str());
        }
        proof {
            assert(self@ =~= late + tail_tokens(t));
            assert(self@ =~= old(self)@ + (head_tokens(t, first) + base_tokens(cache@, t.base, limit) + tail_tokens(
                t,
            )));
        }
    }

    /// Adds the tokens of the terms of a polynomial with bases below
    /// `limit`.
    fn terms(&mut self, cache: &Cache, p: &Poly, limit: usize)
        requires
            cache.wf(),
            p.wf(),
            limit <= cache@.len(),
            poly_below(p@, limit as int),
        ensures
            final(self)@ == old(self)@ + terms_tokens(cache@, p.terms(), limit),
        decreases limit, 2nat,
    {
        let ghost terms = p.terms();
        let mut n: usize = 0;
        proof {
            assert(terms.take(0) =~= Seq::<Term>::empty());
            assert(self@ =~= old(self)@ + terms_tokens(cache@, terms.take(0), limit));
        }
        while n < p.len()
            invariant
                n <= terms.len(),
                cache.wf(),
                p.wf(),
                terms == p.terms(),
                limit <= cache@.len(),
                poly_below(p@, limit as int),
                self@ == old(self)@ + terms_tokens(cache@, terms.take(n as int), limit),
            decreases terms.len() - n,
        {
            let ghost t = terms[n as int];
            let ghost before = self@;
            proof {
                assert(terms.take(n + 1).drop_last() =~= terms.take(n as int));
                assert(terms.take(n + 1).last() == t);
                lemma_coeff_at(terms, n as int);
                assert(p@.dom().contains(t.base));
                assert(mono_below(t.base, limit as int));
                assert(crate::poly::term_wf(t));
            }
            let (base, fac) = p.term(n);
            self.term(cache, base, fac, n == 0, limit);
            proof {
                let done = terms_tokens(cache@, terms.take(n as int), limit);
                let more = term_tokens(cache@, t, n == 0, limit);
                assert(terms_tokens(cache@, terms.take(n + 1), limit) == done + more);
                assert(before + more =~= old(self)@ + (done + more));
            }
            n += 1;
        }
        proof {
            assert(terms.take(n as int) =~= terms);
        }
    }

    /// Adds the tokens of a polynomial, or `0` if there is no token then.
    pub fn poly(&mut self, cache: &Cache, p: &Poly)
        requires
            cache.wf(),
            p.wf(),
            poly_below(p@, cache@.len() as int),
        ensures
            final(self)@ == poly_tokens(old(self)@, cache@, p.terms(), cache@.len() as usize),
    {
        let limit = cache.len();
        self.terms(cache, p, limit);
        if self.len() == 0 {
            proof {
                reveal_strlit("0");
                assert("0"@ =~= seq!['0']);
            }
            self.push("0");
            assert(self@ =~= seq![seq!['0']]);
        }
    }

    /// The tokens of a node. The recursion is as deep as the expression
    /// is nested.
    pub fn node(cache: &Cache, h: NodeRc) -> (r: Tokens)
        requires
            cache.wf(),
            h.id < cache@.len(),
        ensures
            r@ == node_tokens(cache@, h),
        decreases h.id, 3nat,
    {
        let mut tokens = Tokens::new();
        proof {
            cache.lemma_wf();
            assert(node_below(cache@[h.id as int], h.id as int));
            reveal_strlit("(");
            reveal_strlit(")");
            reveal_strlit(", ");
            reveal_strlit("0");
            assert("("@ =~= seq!['(']);
            assert(")"@ =~= seq![')']);
            assert(", "@ =~= seq![',', ' ']);
            assert("0"@ =~= seq!['0']);
        }
        match cache.get(h) {
            Node::Func(f, g) => {
                let inner = Tokens::node(cache, *g).to_string();
                let text = String::from_str(f.name()).concat("(").concat(inner.as_str()).concat(")");
                tokens.push(text.as_str());
                assert(tokens@ =~= node_tokens(cache@, h));
            },
            Node::Poly(p) => {
                proof {
                    p.lemma_stored();
                }
                tokens.terms(cache, p, h.id);
                if tokens.len() == 0 {
                    tokens.push("0");
                }
                assert(tokens@ =~= node_tokens(cache@, h));
            },
            Node::Var(name) => {
                tokens.push(name.as_str());
                assert(tokens@ =~= node_tokens(cache@, h));
            },
            Node::Tuple(parts) => {
                let mut texts: Vec<String> = Vec::new();
                let mut i: usize = 0;
                proof {
                    assert(handles_below(parts@, h.id as int));
                    assert(parts@.take(0) =~= Seq::<NodeRc>::empty());
                    assert(strings_view(texts@) =~= list_texts(cache@, parts@.take(0), h.id));
                }
                while i < parts.len()
                    invariant
                        i <= parts@.len(),
                        cache.wf(),
                        h.id < cache@.len(),
                        handles_below(parts@, h.id as int),
                        strings_view(texts@) == list_texts(cache@, parts@.take(i as int), h.id),
                    decreases parts@.len() - i,
                {
                    let ghost before = strings_view(texts@);
                    proof {
                        assert(parts@.take(i + 1).drop_last() =~= parts@.take(i as int));
                        assert(parts@.take(i + 1).last() == parts@[i as int]);
                        assert(parts@[i as int].id < h.id);
                    }
                    let text = Tokens::node(cache, parts[i]).to_string();
                    texts.push(text);
                    proof {
                        assert(strings_view(texts@) =~= before.push(node_text(cache@, parts@[i as int])));
                    }
                    i += 1;
                }
                proof {
                    assert(parts@.take(i as int) =~= parts@);
                }
                let text = String::from_str("(").concat(join(&texts, ", ").as_str()).concat(")");
                tokens.push(text.as_str());
                assert(tokens@ =~= node_tokens(cache@, h));
            },
        }
        tokens
    }
}

/// The text of a polynomial as a factor: in parentheses if it has two
/// tokens or more.
pub fn wrap_poly(cache: &Cache, p: &Poly) -> (r: String)
    requires
        cache.wf(),
        p.wf(),
        poly_below(p@, cache@.len() as int),
    ensures
        r@ == wrap_poly_spec(cache@, p.terms(), cache@.len() as usize),
{
    let mut tokens = Tokens::new();
    tokens.poly(cache, p);
    if tokens.len() > 1 {
        proof {
            reveal_strlit("(");
            reveal_strlit(")");
            assert("("@ =~= seq!['(']);
            assert(")"@ =~= seq![')']);
        }
        String::from_str("(").concat(tokens.to_string().as_str()).concat(")")
    } else {
        tokens.to_string()
    }
}

impl Poly {
    /// The text of the polynomial: `0` if it has no terms, and else its
    /// terms, in parentheses if there are two or more.
    pub fn to_string(&self, cache: &Cache) -> (r: String)
        requires
            cache.wf(),
            self.wf(),
            poly_below(self@, cache@.len() as int),
        ensures
            r@ == poly_text(cache@, self.terms(), cache@.len() as usize),
    {
        let mut tokens = Tokens::new();
        tokens.terms(cache, self, cache.len());
        if self.len() == 0 {
            proof {
                reveal_strlit("0");
                assert("0"@ =~= seq!['0']);
            }
            String::from_str("0")
        } else if self.len() > 1 {
            proof {
                reveal_strlit("(");
                reveal_strlit(")");
                assert("("@ =~= seq!['(']);
                assert(")"@ =~= seq![')']);
            }
            String::from_str("(").concat(tokens.to_string().as_str()).concat(")")
        } else {
            tokens.to_string()
        }
    }
}

} // verus!
