use vstd::prelude::*;
use crate::expand::{
    all_expansions, chars_of, closed_terms, closes_group, delta, depth, derived, expansions,
    group_end, group_start, group_terms, has_group, is_group_end, is_group_start,
    lemma_below, lemma_derived_shorter, lemma_group_bounds, opens_group, separates, term_start,
};
use crate::token::{Token, char_tokens, literal, token_of, tokenize};

verus! {

/// A character with no special meaning: not a brace, a comma or a backslash.
pub open spec fn is_plain(c: char) -> bool {
    c != '{' && c != '}' && c != ',' && c != '\\'
}

pub open spec fn all_plain(s: Seq<char>) -> bool {
    forall|i: int| 0 <= i < s.len() ==> is_plain(#[trigger] s[i])
}

/// Every character preceded by a backslash.
pub open spec fn escaped(s: Seq<char>) -> Seq<char>
    decreases s.len(),
{
    if s.len() == 0 {
        seq![]
    } else {
        seq!['\\', s[0]] + escaped(s.drop_first())
    }
}

pub proof fn lemma_chars_of_concat(x: Seq<Token>, y: Seq<Token>)
    ensures
        chars_of(x + y) == chars_of(x) + chars_of(y),
    decreases y.len(),
{
    if y.len() == 0 {
        assert(x + y =~= x);
        assert(chars_of(x) + chars_of(y) =~= chars_of(x));
    } else {
        assert((x + y).drop_last() =~= x + y.drop_last());
        lemma_chars_of_concat(x, y.drop_last());
        assert(chars_of(x + y) =~= chars_of(x) + chars_of(y));
    }
}

pub proof fn lemma_chars_of_one(c: char)
    ensures
        chars_of(seq![Token::Char(c)]) == seq![c],
{
    let one = seq![Token::Char(c)];
    assert(one.drop_last() =~= Seq::<Token>::empty());
    assert(one.last() == Token::Char(c));
    assert(chars_of(Seq::<Token>::empty()) == Seq::<char>::empty());
    assert(Seq::<char>::empty() + seq![c] =~= seq![c]);
}

pub proof fn lemma_chars_of_char_tokens(s: Seq<char>)
    ensures
        chars_of(char_tokens(s)) == s,
        forall|i: int| 0 <= i < char_tokens(s).len() ==> (#[trigger] char_tokens(s)[i]) is Char,
    decreases s.len(),
{
    if s.len() > 0 {
        let head = seq![Token::Char(s[0])];
        let rest = char_tokens(s.drop_first());
        assert(char_tokens(s) == head + rest);
        lemma_chars_of_char_tokens(s.drop_first());
        lemma_chars_of_concat(head, rest);
        lemma_chars_of_one(s[0]);
        assert(seq![s[0]] + s.drop_first() =~= s);
        assert forall|i: int| 0 <= i < char_tokens(s).len() implies (#[trigger] char_tokens(
            s,
        )[i]) is Char by {
            if i > 0 {
                assert(char_tokens(s)[i] == rest[i - 1]);
            }
        }
    }
}

/// Text made of `Char` tokens alone has no group and expands to its characters.
pub proof fn lemma_char_tokens_expand(s: Seq<char>)
    ensures
        expansions(char_tokens(s)) == seq![s],
{
    let t = char_tokens(s);
    lemma_chars_of_char_tokens(s);
    assert(!has_group(t)) by {
        if has_group(t) {
            let b = choose|b: int| is_group_end(t, b);
            assert(closes_group(t, b));
            assert(t[b] is Char);
        }
    }
}

pub proof fn lemma_tokenize_plain(s: Seq<char>)
    requires
        all_plain(s),
    ensures
        tokenize(s) == char_tokens(s),
    decreases s.len(),
{
    if s.len() > 0 {
        let rest = s.subrange(1, s.len() as int);
        assert(all_plain(rest)) by {
            assert forall|i: int| 0 <= i < rest.len() implies is_plain(#[trigger] rest[i]) by {
                assert(rest[i] == s[i + 1]);
            }
        }
        lemma_tokenize_plain(rest);
        assert(is_plain(s[0]));
        assert(tokenize(s) =~= char_tokens(s));
    }
}

pub proof fn lemma_tokenize_escaped(s: Seq<char>)
    ensures
        tokenize(escaped(s)) == char_tokens(s),
    decreases s.len(),
{
    if s.len() > 0 {
        let e = escaped(s);
        let rest = s.drop_first();
        assert(e.subrange(2, e.len() as int) =~= escaped(rest));
        lemma_tokenize_escaped(rest);
        assert(e[0] == '\\' && e[1] == s[0]);
        assert(tokenize(e) =~= char_tokens(s));
    }
}

/// Text without braces, commas or backslashes expands to itself alone.
pub proof fn lemma_plain_text_unchanged(s: Seq<char>)
    requires
        all_plain(s),
    ensures
        expansions(tokenize(s)) == seq![s],
{
    lemma_tokenize_plain(s);
    lemma_char_tokens_expand(s);
}

/// A backslash and the character after it stand for that character alone,
/// whatever it is and whatever follows.
pub proof fn lemma_escape_is_literal(x: char, rest: Seq<char>)
    ensures
        tokenize(seq!['\\', x] + rest) == seq![Token::Char(x)] + tokenize(rest),
{
    let s = seq!['\\', x] + rest;
    assert(s.subrange(2, s.len() as int) =~= rest);
}

/// Escaping every character of a text and expanding it gives the text back.
pub proof fn lemma_escaped_text_round_trip(s: Seq<char>)
    ensures
        expansions(tokenize(escaped(s))) == seq![s],
{
    lemma_tokenize_escaped(s);
    lemma_char_tokens_expand(s);
}

/// Alternatives written out with commas between them.
pub open spec fn joined(x: Seq<Seq<char>>) -> Seq<char>
    decreases x.len(),
{
    if x.len() == 0 {
        seq![]
    } else if x.len() == 1 {
        x[0]
    } else {
        joined(x.drop_last()) + seq![','] + x.last()
    }
}

/// A brace group over the given alternatives.
pub open spec fn braced(x: Seq<Seq<char>>) -> Seq<char> {
    seq!['{'] + joined(x) + seq!['}']
}

/// The tokens of alternatives written out with commas between them.
pub open spec fn joined_tokens(x: Seq<Seq<char>>) -> Seq<Token>
    decreases x.len(),
{
    if x.len() == 0 {
        seq![]
    } else if x.len() == 1 {
        char_tokens(x[0])
    } else {
        joined_tokens(x.drop_last()) + seq![Token::Comma] + char_tokens(x.last())
    }
}

pub open spec fn group_tokens(x: Seq<Seq<char>>) -> Seq<Token> {
    seq![Token::OpenBrace] + joined_tokens(x) + seq![Token::CloseBrace]
}

pub open spec fn alternatives_plain(x: Seq<Seq<char>>) -> bool {
    forall|i: int| 0 <= i < x.len() ==> all_plain(#[trigger] x[i])
}

pub open spec fn no_backslash(s: Seq<char>) -> bool {
    forall|i: int| 0 <= i < s.len() ==> #[trigger] s[i] != '\\'
}

pub proof fn lemma_tokenize_one(c: char)
    requires
        c != '\\',
    ensures
        tokenize(seq![c]) == seq![token_of(c)],
{
    let one = seq![c];
    assert(one.subrange(1, 1) =~= Seq::<char>::empty());
    assert(tokenize(Seq::<char>::empty()) == Seq::<Token>::empty());
    assert(seq![token_of(c)] + Seq::<Token>::empty() =~= seq![token_of(c)]);
}

pub proof fn lemma_tokenize_concat(x: Seq<char>, y: Seq<char>)
    requires
        no_backslash(x),
    ensures
        tokenize(x + y) == tokenize(x) + tokenize(y),
    decreases x.len(),
{
    if x.len() == 0 {
        assert(x + y =~= y);
        assert(tokenize(x) + tokenize(y) =~= tokenize(y));
    } else {
        let rest = x.subrange(1, x.len() as int);
        assert(no_backslash(rest)) by {
            assert forall|i: int| 0 <= i < rest.len() implies #[trigger] rest[i] != '\\' by {
                assert(rest[i] == x[i + 1]);
            }
        }
        lemma_tokenize_concat(rest, y);
        let xy = x + y;
        assert(xy[0] == x[0] && x[0] != '\\');
        assert(xy.subrange(1, xy.len() as int) =~= rest + y);
        assert(tokenize(x + y) =~= tokenize(x) + tokenize(y));
    }
}

pub proof fn lemma_tokenize_joined(x: Seq<Seq<char>>)
    requires
        alternatives_plain(x),
    ensures
        tokenize(joined(x)) == joined_tokens(x),
        no_backslash(joined(x)),
    decreases x.len(),
{
    if x.len() == 1 {
        assert(all_plain(x[0]));
        lemma_tokenize_plain(x[0]);
    } else if x.len() > 1 {
        let front = x.drop_last();
        assert(alternatives_plain(front)) by {
            assert forall|i: int| 0 <= i < front.len() implies all_plain(#[trigger] front[i]) by {
                assert(front[i] == x[i]);
            }
        }
        lemma_tokenize_joined(front);
        assert(all_plain(x.last()));
        lemma_tokenize_plain(x.last());
        let comma = seq![','];
        assert(no_backslash(comma));
        lemma_tokenize_one(',');
        lemma_tokenize_concat(joined(front), comma);
        assert(no_backslash(joined(front) + comma)) by {
            let jc = joined(front) + comma;
            assert forall|i: int| 0 <= i < jc.len() implies #[trigger] jc[i] != '\\' by {
                if i < joined(front).len() {
                    assert(jc[i] == joined(front)[i]);
                }
            }
        }
        lemma_tokenize_concat(joined(front) + comma, x.last());
        let all = joined(x);
        assert forall|i: int| 0 <= i < all.len() implies #[trigger] all[i] != '\\' by {
            let jc = joined(front) + comma;
            if i >= jc.len() {
                assert(all[i] == x.last()[i - jc.len()]);
                assert(is_plain(x.last()[i - jc.len()]));
            } else {
                assert(all[i] == jc[i]);
            }
        }
    }
}

pub proof fn lemma_tokenize_braced(x: Seq<Seq<char>>, y: Seq<Seq<char>>)
    requires
        alternatives_plain(x),
        alternatives_plain(y),
    ensures
        tokenize(braced(x) + braced(y)) == group_tokens(x) + group_tokens(y),
        no_backslash(braced(x)),
{
    let open = seq!['{'];
    let close = seq!['}'];
    lemma_tokenize_one('{');
    lemma_tokenize_one('}');
    assert(no_backslash(open));
    lemma_tokenize_joined(x);
    lemma_tokenize_joined(y);
    assert forall|z: Seq<Seq<char>>| alternatives_plain(z) implies tokenize(#[trigger] braced(z))
        == group_tokens(z) && no_backslash(braced(z)) by {
        lemma_tokenize_joined(z);
        lemma_tokenize_concat(open, joined(z));
        let oj = open + joined(z);
        assert(no_backslash(oj)) by {
            assert forall|i: int| 0 <= i < oj.len() implies #[trigger] oj[i] != '\\' by {
                if i > 0 {
                    assert(oj[i] == joined(z)[i - 1]);
                }
            }
        }
        lemma_tokenize_concat(oj, close);
        let b = braced(z);
        assert forall|i: int| 0 <= i < b.len() implies #[trigger] b[i] != '\\' by {
            if i < oj.len() {
                assert(b[i] == oj[i]);
            }
        }
    }
    lemma_tokenize_concat(braced(x), braced(y));
}

/// The tokens of each alternative.
pub open spec fn alt_tokens(x: Seq<Seq<char>>) -> Seq<Seq<Token>>
    decreases x.len(),
{
    if x.len() == 0 {
        seq![]
    } else {
        alt_tokens(x.drop_last()).push(char_tokens(x.last()))
    }
}

/// Each string of `x` with `p` in front.
pub open spec fn prefixed(p: Seq<char>, x: Seq<Seq<char>>) -> Seq<Seq<char>> {
    Seq::new(x.len(), |j: int| p + x[j])
}

/// Every alternative of `x` followed by every alternative of `y`; the
/// alternative of `x` varies slowest.
pub open spec fn pairs(x: Seq<Seq<char>>, y: Seq<Seq<char>>) -> Seq<Seq<char>>
    decreases x.len(),
{
    if x.len() == 0 {
        seq![]
    } else {
        pairs(x.drop_last(), y) + prefixed(x.last(), y)
    }
}

pub proof fn lemma_alt_tokens(x: Seq<Seq<char>>)
    ensures
        alt_tokens(x).len() == x.len(),
        forall|i: int| 0 <= i < x.len() ==> #[trigger] alt_tokens(x)[i] == char_tokens(x[i]),
    decreases x.len(),
{
    if x.len() > 0 {
        lemma_alt_tokens(x.drop_last());
        assert forall|i: int| 0 <= i < x.len() implies #[trigger] alt_tokens(x)[i] == char_tokens(
            x[i],
        ) by {
            if i < x.len() - 1 {
                assert(alt_tokens(x)[i] == alt_tokens(x.drop_last())[i]);
                assert(x.drop_last()[i] == x[i]);
            }
        }
    }
}

pub proof fn lemma_char_tokens_concat(p: Seq<char>, q: Seq<char>)
    ensures
        char_tokens(p + q) == char_tokens(p) + char_tokens(q),
    decreases p.len(),
{
    if p.len() == 0 {
        assert(p + q =~= q);
        assert(char_tokens(p) + char_tokens(q) =~= char_tokens(q));
    } else {
        lemma_char_tokens_concat(p.drop_first(), q);
        assert((p + q).drop_first() =~= p.drop_first() + q);
        assert((p + q)[0] == p[0]);
        assert(char_tokens(p + q) =~= char_tokens(p) + char_tokens(q));
    }
}

/// The tokens of the alternatives are characters and commas only.
pub proof fn lemma_joined_tokens_flat(x: Seq<Seq<char>>)
    ensures
        forall|k: int|
            0 <= k < joined_tokens(x).len() ==> (#[trigger] joined_tokens(x)[k] is Char
                || joined_tokens(x)[k] is Comma),
    decreases x.len(),
{
    let j = joined_tokens(x);
    if x.len() == 1 {
        lemma_chars_of_char_tokens(x[0]);
    } else if x.len() > 1 {
        let front = joined_tokens(x.drop_last());
        lemma_joined_tokens_flat(x.drop_last());
        lemma_chars_of_char_tokens(x.last());
        assert forall|k: int| 0 <= k < j.len() implies (#[trigger] j[k] is Char || j[k] is Comma) by {
            if k < front.len() {
                assert(j[k] == front[k]);
            } else if k > front.len() {
                assert(j[k] == char_tokens(x.last())[k - front.len() - 1]);
            }
        }
    }
}

pub proof fn lemma_depth_flat(t: Seq<Token>, lo: int, hi: int)
    requires
        0 <= lo <= hi <= t.len(),
        forall|k: int| lo <= k < hi ==> delta(#[trigger] t[k]) == 0,
    ensures
        forall|k: int| lo <= k <= hi ==> #[trigger] depth(t, k) == depth(t, lo),
    decreases hi - lo,
{
    if hi > lo {
        lemma_depth_flat(t, lo, hi - 1);
        assert(depth(t, hi) == depth(t, hi - 1) + delta(t[hi - 1]));
    }
}

pub proof fn lemma_walk(t: Seq<Token>, a: int, lo: int, hi: int)
    requires
        a + 1 <= lo <= hi,
        forall|k: int| lo <= k < hi ==> !separates(t, k),
    ensures
        closed_terms(t, a, hi) == closed_terms(t, a, lo),
        term_start(t, a, hi) == term_start(t, a, lo),
    decreases hi - lo,
{
    if hi > lo {
        lemma_walk(t, a, lo, hi - 1);
        assert(!separates(t, hi - 1));
    }
}

/// Inside a group opened at `a` whose contents are `x` written out with
/// commas, the alternatives are those of `x`.
pub proof fn lemma_group_terms(t: Seq<Token>, a: int, x: Seq<Seq<char>>)
    requires
        x.len() >= 1,
        0 <= a,
        a + 1 + joined_tokens(x).len() <= t.len(),
        t.subrange(a + 1, a + 1 + joined_tokens(x).len()) == joined_tokens(x),
        forall|k: int| a + 1 <= k <= a + 1 + joined_tokens(x).len() ==> #[trigger] depth(t, k) == 1,
    ensures
        group_terms(t, a, a + 1 + joined_tokens(x).len()) == alt_tokens(x),
    decreases x.len(),
{
    let e = a + 1 + joined_tokens(x).len();
    let last = x.last();
    lemma_chars_of_char_tokens(last);
    if x.len() == 1 {
        assert forall|k: int| a + 1 <= k < e implies !separates(t, k) by {
            assert(t[k] == char_tokens(last)[k - a - 1]);
        }
        lemma_walk(t, a, a + 1, e);
        assert(alt_tokens(x.drop_last()) =~= Seq::<Seq<Token>>::empty());
        assert(group_terms(t, a, e) =~= alt_tokens(x));
    } else {
        let front = x.drop_last();
        let jf = joined_tokens(front);
        let e1 = a + 1 + jf.len();
        assert(t.subrange(a + 1, e1) =~= jf) by {
            assert forall|k: int| 0 <= k < jf.len() implies t.subrange(a + 1, e1)[k] == jf[k] by {
                assert(t[a + 1 + k] == joined_tokens(x)[k]);
            }
        }
        lemma_group_terms(t, a, front);
        assert(t[e1] == joined_tokens(x)[jf.len() as int]);
        assert(separates(t, e1));
        assert(closed_terms(t, a, e1 + 1) == alt_tokens(front));
        assert forall|k: int| e1 + 1 <= k < e implies !separates(t, k) by {
            assert(t[k] == joined_tokens(x)[k - a - 1]);
            assert(joined_tokens(x)[k - a - 1] == char_tokens(last)[k - e1 - 1]);
        }
        lemma_walk(t, a, e1 + 1, e);
        assert(t.subrange(e1 + 1, e) =~= char_tokens(last)) by {
            assert forall|k: int| 0 <= k < char_tokens(last).len() implies t.subrange(e1 + 1, e)[k]
                == char_tokens(last)[k] by {
                assert(t[e1 + 1 + k] == joined_tokens(x)[jf.len() + 1 + k]);
            }
        }
    }
}

/// Text before a group is characters only: the group is the first one, and
/// resolving it puts each alternative between that text and what follows.
pub proof fn lemma_first_group(p: Seq<char>, x: Seq<Seq<char>>, rest: Seq<Token>)
    requires
        x.len() >= 1,
    ensures
        has_group(char_tokens(p) + group_tokens(x) + rest),
        derived(char_tokens(p) + group_tokens(x) + rest).len() == x.len(),
        forall|i: int|
            0 <= i < x.len() ==> #[trigger] derived(char_tokens(p) + group_tokens(x) + rest)[i]
                == char_tokens(p) + char_tokens(x[i]) + rest,
{
    let cp = char_tokens(p);
    let j = joined_tokens(x);
    let t = cp + group_tokens(x) + rest;
    let a = cp.len() as int;
    let e = a + 1 + j.len();
    lemma_chars_of_char_tokens(p);
    lemma_joined_tokens_flat(x);
    assert forall|k: int| 0 <= k < a implies #[trigger] t[k] == cp[k] by {}
    assert(t[a] == Token::OpenBrace);
    assert forall|k: int| a + 1 <= k < e implies #[trigger] t[k] == j[k - a - 1] by {}
    assert(t[e] == Token::CloseBrace);
    lemma_depth_flat(t, 0, a);
    lemma_depth_flat(t, a + 1, e);
    assert(depth(t, 0) == 0);
    assert(depth(t, a) == 0);
    assert(depth(t, a + 1) == depth(t, a) + delta(t[a]));
    assert(depth(t, a + 1) == 1);
    assert(is_group_start(t, a));
    assert forall|k: int| 0 <= k < e implies !closes_group(t, k) by {
        if k < a {
            assert(t[k] is Char);
        } else if k > a {
            assert(j[k - a - 1] is Char || j[k - a - 1] is Comma);
        }
    }
    assert(is_group_end(t, e));
    assert(has_group(t));
    lemma_group_bounds(t);
    assert(group_start(t) == a);
    assert(group_end(t) == e);
    assert(t.subrange(a + 1, e) =~= j);
    lemma_group_terms(t, a, x);
    lemma_alt_tokens(x);
    assert(t.subrange(0, a) =~= cp);
    assert(t.subrange(e + 1, t.len() as int) =~= rest);
}

/// Expanding items that each expand to one string gives those strings.
pub proof fn lemma_all_single(d: Seq<Seq<Token>>, v: Seq<Seq<char>>)
    requires
        d.len() == v.len(),
        forall|i: int| 0 <= i < d.len() ==> #[trigger] expansions(d[i]) == seq![v[i]],
    ensures
        all_expansions(d) == v,
    decreases d.len(),
{
    if d.len() > 0 {
        lemma_all_single(d.drop_last(), v.drop_last());
        assert(expansions(d.last()) == seq![v.last()]);
        assert(v.drop_last().push(v.last()) =~= v);
    } else {
        assert(v =~= Seq::<Seq<char>>::empty());
    }
}

pub proof fn lemma_all_pairs(d: Seq<Seq<Token>>, x: Seq<Seq<char>>, y: Seq<Seq<char>>)
    requires
        d.len() == x.len(),
        forall|i: int| 0 <= i < d.len() ==> #[trigger] expansions(d[i]) == prefixed(x[i], y),
    ensures
        all_expansions(d) == pairs(x, y),
    decreases d.len(),
{
    if d.len() > 0 {
        lemma_all_pairs(d.drop_last(), x.drop_last(), y);
        assert(expansions(d.last()) == prefixed(x.last(), y));
    }
}

/// A token sequence expands to the strings of the sequences that resolving its
/// first group gives.
pub proof fn lemma_expansions_derived(t: Seq<Token>)
    requires
        has_group(t),
    ensures
        expansions(t) == all_expansions(derived(t)),
{
    lemma_derived_shorter(t);
    lemma_below(derived(t), t.len());
}

/// Characters followed by a group of plain alternatives expand to the
/// characters followed by each alternative.
pub proof fn lemma_chars_then_group(p: Seq<char>, y: Seq<Seq<char>>)
    requires
        y.len() >= 1,
    ensures
        expansions(char_tokens(p) + group_tokens(y)) == prefixed(p, y),
{
    let none = Seq::<Token>::empty();
    let t = char_tokens(p) + group_tokens(y);
    assert(t + none =~= t);
    lemma_first_group(p, y, none);
    lemma_expansions_derived(t);
    let d = derived(t);
    assert forall|j: int| 0 <= j < d.len() implies #[trigger] expansions(d[j]) == seq![
        prefixed(p, y)[j],
    ] by {
        lemma_char_tokens_concat(p, y[j]);
        assert(d[j] == char_tokens(p) + char_tokens(y[j]) + none);
        assert(d[j] =~= char_tokens(p + y[j]));
        lemma_char_tokens_expand(p + y[j]);
    }
    lemma_all_single(d, prefixed(p, y));
}

/// `pairs(x, y)` holds `x.len() * y.len()` strings, and the one at
/// `i * y.len() + j` is alternative `i` of `x` followed by alternative `j` of `y`.
pub proof fn lemma_pairs_index(x: Seq<Seq<char>>, y: Seq<Seq<char>>)
    ensures
        pairs(x, y).len() == x.len() * y.len(),
        forall|i: int, j: int|
            #![trigger x[i], y[j]]
            0 <= i < x.len() && 0 <= j < y.len() ==> pairs(x, y)[i * y.len() + j] == x[i] + y[j],
    decreases x.len(),
{
    if x.len() > 0 {
        let front = x.drop_last();
        lemma_pairs_index(front, y);
        let m = x.len() as int;
        let n = y.len() as int;
        assert((m - 1) * n + n == m * n) by (nonlinear_arith);
        assert forall|i: int, j: int| 0 <= i < m && 0 <= j < n implies pairs(x, y)[i * n + j]
            == x[i] + y[j] by {
            if i < m - 1 {
                assert(i * n + j < (m - 1) * n) by (nonlinear_arith)
                    requires
                        0 <= i < m - 1,
                        0 <= j < n,
                ;
                assert(front[i] == x[i]);
                assert(pairs(x, y)[i * n + j] == pairs(front, y)[i * n + j]);
            } else {
                assert(i * n + j - (m - 1) * n == j) by (nonlinear_arith)
                    requires
                        i == m - 1,
                ;
                assert(pairs(x, y)[i * n + j] == prefixed(x.last(), y)[j]);
            }
        }
    }
}

/// Two groups in a row, `{A1,...,Am}{B1,...,Bn}` over plain alternatives,
/// expand to every alternative of the first followed by every alternative of
/// the second, the first varying slowest.
pub proof fn lemma_two_groups(x: Seq<Seq<char>>, y: Seq<Seq<char>>)
    requires
        x.len() >= 1,
        y.len() >= 1,
        alternatives_plain(x),
        alternatives_plain(y),
    ensures
        expansions(tokenize(braced(x) + braced(y))) == pairs(x, y),
        pairs(x, y).len() == x.len() * y.len(),
        forall|i: int, j: int|
            #![trigger x[i], y[j]]
            0 <= i < x.len() && 0 <= j < y.len() ==> pairs(x, y)[i * y.len() + j] == x[i] + y[j],
{
    lemma_pairs_index(x, y);
    lemma_tokenize_braced(x, y);
    let empty_text = Seq::<char>::empty();
    let t = group_tokens(x) + group_tokens(y);
    assert(char_tokens(empty_text) =~= Seq::<Token>::empty());
    assert(char_tokens(empty_text) + group_tokens(x) + group_tokens(y) =~= t);
    lemma_first_group(empty_text, x, group_tokens(y));
    lemma_expansions_derived(t);
    let d = derived(t);
    assert forall|i: int| 0 <= i < d.len() implies #[trigger] expansions(d[i]) == prefixed(
        x[i],
        y,
    ) by {
        assert(d[i] == char_tokens(empty_text) + char_tokens(x[i]) + group_tokens(y));
        assert(d[i] =~= char_tokens(x[i]) + group_tokens(y));
        lemma_chars_then_group(x[i], y);
    }
    lemma_all_pairs(d, x, y);
}

} // verus!
