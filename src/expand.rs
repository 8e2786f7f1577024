use vstd::prelude::*;
use crate::token::{Token, TokenIter, tokenize};

verus! {

/// How a token changes the nesting depth.
pub open spec fn delta(t: Token) -> int {
    match t {
        Token::OpenBrace => 1,
        Token::CloseBrace => -1,
        _ => 0,
    }
}

/// The nesting depth just before position `i`: opening braces minus closing
/// braces among the first `i` tokens. Stray closing braces make it negative.
pub open spec fn depth(t: Seq<Token>, i: int) -> int
    decreases i,
{
    if i <= 0 {
        0
    } else {
        depth(t, i - 1) + delta(t[i - 1])
    }
}

/// Position `i` holds a brace that takes the depth from 0 to 1.
pub open spec fn opens_group(t: Seq<Token>, i: int) -> bool {
    0 <= i < t.len() && t[i] == Token::OpenBrace && depth(t, i) == 0
}

/// Position `i` holds a brace that takes the depth from 1 to 0.
pub open spec fn closes_group(t: Seq<Token>, i: int) -> bool {
    0 <= i < t.len() && t[i] == Token::CloseBrace && depth(t, i) == 1
}

/// Position `i` holds a comma directly inside a top-level group.
pub open spec fn separates(t: Seq<Token>, i: int) -> bool {
    0 <= i < t.len() && t[i] == Token::Comma && depth(t, i) == 1
}

/// `a` is the first position that opens a top-level group.
pub open spec fn is_group_start(t: Seq<Token>, a: int) -> bool {
    opens_group(t, a) && forall|j: int| 0 <= j < a ==> !opens_group(t, j)
}

/// `b` is the first position that closes a top-level group.
pub open spec fn is_group_end(t: Seq<Token>, b: int) -> bool {
    closes_group(t, b) && forall|j: int| 0 <= j < b ==> !closes_group(t, j)
}

/// The sequence holds a complete top-level group.
pub open spec fn has_group(t: Seq<Token>) -> bool {
    exists|b: int| is_group_end(t, b)
}

/// Where the first top-level group opens (meaningful when `has_group(t)`).
pub open spec fn group_start(t: Seq<Token>) -> int {
    choose|a: int| is_group_start(t, a)
}

/// Where the first top-level group closes (meaningful when `has_group(t)`).
pub open spec fn group_end(t: Seq<Token>) -> int {
    choose|b: int| is_group_end(t, b)
}

/// Where the alternative that is still open at position `hi` begins, in the
/// group opened at `a`.
pub open spec fn term_start(t: Seq<Token>, a: int, hi: int) -> int
    decreases hi - a,
{
    if hi <= a + 1 {
        a + 1
    } else if separates(t, hi - 1) {
        hi
    } else {
        term_start(t, a, hi - 1)
    }
}

/// The alternatives of the group opened at `a` that a separating comma before
/// position `hi` has ended, left to right.
pub open spec fn closed_terms(t: Seq<Token>, a: int, hi: int) -> Seq<Seq<Token>>
    decreases hi - a,
{
    if hi <= a + 1 {
        seq![]
    } else if separates(t, hi - 1) {
        closed_terms(t, a, hi - 1).push(t.subrange(term_start(t, a, hi - 1), hi - 1))
    } else {
        closed_terms(t, a, hi - 1)
    }
}

/// All alternatives of the group that opens at `a` and closes at `b`.
pub open spec fn group_terms(t: Seq<Token>, a: int, b: int) -> Seq<Seq<Token>> {
    closed_terms(t, a, b).push(t.subrange(term_start(t, a, b), b))
}

/// The sequences that resolving the first top-level group yields: the tokens
/// before the group, one alternative, and the tokens after the group.
pub open spec fn derived(t: Seq<Token>) -> Seq<Seq<Token>> {
    let a = group_start(t);
    let b = group_end(t);
    group_terms(t, a, b).map_values(
        |term: Seq<Token>| t.subrange(0, a) + term + t.subrange(b + 1, t.len() as int),
    )
}

/// The characters of the `Char` tokens, in order; all other tokens dropped.
pub open spec fn chars_of(t: Seq<Token>) -> Seq<char>
    decreases t.len(),
{
    if t.len() == 0 {
        seq![]
    } else {
        chars_of(t.drop_last()) + match t.last() {
            Token::Char(c) => seq![c],
            _ => seq![],
        }
    }
}

/// What one expansion step makes of a token sequence.
pub enum Step {
    /// The first top-level group was resolved into these sequences.
    Partial(Seq<Seq<Token>>),
    /// No complete group is left: this is the finished text.
    Complete(Seq<char>),
}

/// One expansion step: the first complete top-level group is resolved; with
/// none left, the text of the `Char` tokens is the result.
pub open spec fn step(t: Seq<Token>) -> Step {
    if has_group(t) {
        Step::Partial(derived(t))
    } else {
        Step::Complete(chars_of(t))
    }
}

/// All strings that a token sequence expands to, in presentation order.
pub open spec fn expansions(t: Seq<Token>) -> Seq<Seq<char>>
    decreases t.len(), 1nat, 0nat,
{
    if has_group(t) {
        expansions_below(derived(t), t.len())
    } else {
        seq![chars_of(t)]
    }
}

/// The expansions of work items shorter than `bound`, one after the other
/// (the run stops at an item that is not).
pub open spec fn expansions_below(items: Seq<Seq<Token>>, bound: nat) -> Seq<Seq<char>>
    decreases bound, 0nat, items.len(),
{
    if items.len() == 0 || items.last().len() >= bound {
        seq![]
    } else {
        expansions_below(items.drop_last(), bound) + expansions(items.last())
    }
}

/// How many expansion steps resolving `t` completely takes: one for `t`, and
/// those of every sequence it is resolved into.
pub open spec fn step_count(t: Seq<Token>) -> nat
    decreases t.len(), 1nat, 0nat,
{
    if has_group(t) {
        1 + steps_below(derived(t), t.len())
    } else {
        1
    }
}

/// The expansion steps of work items shorter than `bound` (the run stops at
/// an item that is not).
pub open spec fn steps_below(items: Seq<Seq<Token>>, bound: nat) -> nat
    decreases bound, 0nat, items.len(),
{
    if items.len() == 0 || items.last().len() >= bound {
        0
    } else {
        steps_below(items.drop_last(), bound) + step_count(items.last())
    }
}

/// The token sequences held by a run of vectors.
pub open spec fn views(items: Seq<Vec<Token>>) -> Seq<Seq<Token>> {
    Seq::new(items.len(), |k: int| items[k]@)
}

/// The character sequences held by a run of strings.
pub open spec fn texts(items: Seq<String>) -> Seq<Seq<char>> {
    Seq::new(items.len(), |k: int| items[k]@)
}

/// The expansions of a run of work items, one after the other.
pub open spec fn all_expansions(items: Seq<Seq<Token>>) -> Seq<Seq<char>>
    decreases items.len(),
{
    if items.len() == 0 {
        seq![]
    } else {
        all_expansions(items.drop_last()) + expansions(items.last())
    }
}

/// The expansion steps that a run of work items still takes.
pub open spec fn pending_steps(items: Seq<Seq<Token>>) -> nat
    decreases items.len(),
{
    if items.len() == 0 {
        0
    } else {
        pending_steps(items.drop_last()) + step_count(items.last())
    }
}

pub proof fn lemma_below(items: Seq<Seq<Token>>, bound: nat)
    requires
        forall|k: int| 0 <= k < items.len() ==> #[trigger] items[k].len() < bound,
    ensures
        expansions_below(items, bound) == all_expansions(items),
        steps_below(items, bound) == pending_steps(items),
    decreases items.len(),
{
    if items.len() > 0 {
        lemma_below(items.drop_last(), bound);
    }
}

pub proof fn lemma_work_concat(x: Seq<Seq<Token>>, y: Seq<Seq<Token>>)
    ensures
        all_expansions(x + y) == all_expansions(x) + all_expansions(y),
        pending_steps(x + y) == pending_steps(x) + pending_steps(y),
    decreases y.len(),
{
    if y.len() == 0 {
        assert(x + y =~= x);
        assert(all_expansions(x) + all_expansions(y) =~= all_expansions(x));
    } else {
        assert((x + y).drop_last() =~= x + y.drop_last());
        lemma_work_concat(x, y.drop_last());
        assert(all_expansions(x + y) =~= all_expansions(x) + all_expansions(y));
    }
}

/// Resolving a group replaces one work item by the sequences it is resolved
/// into, which expand to the same strings and take one step less.
pub proof fn lemma_work_derived(t: Seq<Token>)
    requires
        has_group(t),
    ensures
        all_expansions(derived(t)) == expansions(t),
        pending_steps(derived(t)) + 1 == step_count(t),
{
    lemma_derived_shorter(t);
    lemma_below(derived(t), t.len());
}

pub proof fn lemma_work_single(t: Seq<Token>)
    ensures
        all_expansions(seq![t]) == expansions(t),
        pending_steps(seq![t]) == step_count(t),
{
    let none = Seq::<Seq<Token>>::empty();
    assert(seq![t].drop_last() =~= none);
    assert(seq![t].last() == t);
    assert(all_expansions(none) == Seq::<Seq<char>>::empty());
    assert(pending_steps(none) == 0);
    assert(Seq::<Seq<char>>::empty() + expansions(t) =~= expansions(t));
}

pub proof fn lemma_open_before(t: Seq<Token>, b: int)
    requires
        0 <= b <= t.len(),
        depth(t, b) >= 1,
    ensures
        exists|a: int| 0 <= a < b && opens_group(t, a),
    decreases b,
{
    if depth(t, b - 1) >= 1 {
        lemma_open_before(t, b - 1);
    } else {
        assert(opens_group(t, b - 1));
    }
}

pub proof fn lemma_first_open(t: Seq<Token>, a: int)
    requires
        opens_group(t, a),
    ensures
        exists|f: int| f <= a && is_group_start(t, f),
    decreases a,
{
    if exists|j: int| 0 <= j < a && opens_group(t, j) {
        let j = choose|j: int| 0 <= j < a && opens_group(t, j);
        lemma_first_open(t, j);
    } else {
        assert(is_group_start(t, a));
    }
}

/// A complete group starts before it ends.
pub proof fn lemma_group_bounds(t: Seq<Token>)
    requires
        has_group(t),
    ensures
        is_group_start(t, group_start(t)),
        is_group_end(t, group_end(t)),
        0 <= group_start(t) < group_end(t) < t.len(),
{
    let b = group_end(t);
    lemma_open_before(t, b);
    let a = choose|a: int| 0 <= a < b && opens_group(t, a);
    lemma_first_open(t, a);
}

pub proof fn lemma_terms_within(t: Seq<Token>, a: int, hi: int)
    requires
        0 <= a,
        a + 1 <= hi <= t.len(),
    ensures
        a + 1 <= term_start(t, a, hi) <= hi,
        forall|k: int|
            0 <= k < closed_terms(t, a, hi).len() ==> closed_terms(t, a, hi)[k].len() <= hi - a
                - 1,
    decreases hi - a,
{
    if hi > a + 1 {
        lemma_terms_within(t, a, hi - 1);
        let prev = closed_terms(t, a, hi - 1);
        if separates(t, hi - 1) {
            let last = t.subrange(term_start(t, a, hi - 1), hi - 1);
            assert forall|k: int| 0 <= k < prev.len() + 1 implies #[trigger] prev.push(last)[k].len()
                <= hi - a - 1 by {
                if k < prev.len() {
                    assert(prev.push(last)[k] == prev[k]);
                }
            }
        }
    }
}

pub proof fn lemma_derived_shorter(t: Seq<Token>)
    requires
        has_group(t),
    ensures
        forall|k: int| 0 <= k < derived(t).len() ==> #[trigger] derived(t)[k].len() < t.len(),
{
    lemma_group_bounds(t);
    let a = group_start(t);
    let b = group_end(t);
    lemma_terms_within(t, a, b);
}

/// The outcome of one expansion step.
pub enum Expansion {
    /// One token sequence per alternative of the first top-level group.
    Partial(Vec<Vec<Token>>),
    /// The sequence held no complete group; this is its text.
    Complete(String),
}

impl View for Expansion {
    type V = Step;

    open spec fn view(&self) -> Step {
        match self {
            Expansion::Partial(items) => Step::Partial(views(items@)),
            Expansion::Complete(text) => Step::Complete(text@),
        }
    }
}

/// Relies on `String::push`, which appends one character to the end of the string.
pub assume_specification[ String::push ](string: &mut String, ch: char)
    ensures
        final(string)@ == old(string)@.push(ch),
;

/// The text of the `Char` tokens; braces and commas are dropped.
pub fn convert_to_string(tokens: &[Token]) -> (r: String)
    ensures
        r@ == chars_of(tokens@),
{
    let mut text = String::new();
    let mut i: usize = 0;
    while i < tokens.len()
        invariant
            i <= tokens@.len(),
            text@ == chars_of(tokens@.take(i as int)),
        decreases tokens@.len() - i,
    {
        assert(tokens@.take(i + 1).drop_last() =~= tokens@.take(i as int));
        match tokens[i] {
            Token::Char(ch) => text.push(ch),
            _ => {},
        }
        i = i + 1;
    }
    assert(tokens@.take(i as int) =~= tokens@);
    text
}

/// Resolves the first top-level group of `to_expand`: one sequence per
/// alternative, each made of the tokens before the group, that alternative and
/// the tokens after the group. Without a complete group the sequence is
/// finished and its text is returned.
pub fn expand_one_level(to_expand: Vec<Token>) -> (r: Expansion)
    ensures
        r@ == step(to_expand@),
{
    let ghost t = to_expand@;
    let len = to_expand.len();
    // The depth is `level - below`; at most one of the two is non-zero.
    let mut level: usize = 0;
    let mut below: usize = 0;
    let mut list_start_pos: usize = 0;
    let mut list_end_pos: usize = 0;
    let mut term_start_pos: usize = 0;
    let mut terms: Vec<(usize, usize)> = Vec::new();
    let mut closed = false;
    let mut pos: usize = 0;

    while !closed && pos < len
        invariant
            len == t.len(),
            t == to_expand@,
            pos <= len,
            level <= pos,
            below <= pos,
            forall|j: int| 0 <= j < pos ==> !closes_group(t, j),
            forall|i: int|
                #![trigger terms@[i]]
                0 <= i < terms@.len() ==> terms@[i].0 <= terms@[i].1 <= pos,
            !closed && level >= 1 ==> forall|i: int|
                0 <= i < terms@.len() ==> #[trigger] t.subrange(terms@[i].0 as int, terms@[i].1 as int)
                    == closed_terms(t, list_start_pos as int, pos as int)[i],
            closed ==> forall|i: int|
                0 <= i < terms@.len() ==> #[trigger] t.subrange(terms@[i].0 as int, terms@[i].1 as int)
                    == group_terms(t, list_start_pos as int, pos as int)[i],
            !closed ==> {
                &&& depth(t, pos as int) == level - below
                &&& level == 0 || below == 0
                &&& level == 0 ==> terms@.len() == 0 && forall|j: int|
                    0 <= j < pos ==> !opens_group(t, j)
                &&& level >= 1 ==> {
                    &&& is_group_start(t, list_start_pos as int)
                    &&& list_start_pos < pos
                    &&& term_start_pos == term_start(t, list_start_pos as int, pos as int)
                    &&& term_start_pos <= pos
                    &&& terms@.len() == closed_terms(t, list_start_pos as int, pos as int).len()
                }
            },
            closed ==> {
                &&& is_group_end(t, pos as int)
                &&& is_group_start(t, list_start_pos as int)
                &&& list_start_pos < pos < len
                &&& list_end_pos == pos + 1
                &&& terms@.len() == group_terms(t, list_start_pos as int, pos as int).len()
            },
        decreases len - pos + if closed { 0int } else { 1int },
    {
        let ghost old_terms = terms@;
        let ghost a = list_start_pos as int;
        let ghost p = pos as int;
        match to_expand[pos] {
            Token::OpenBrace => {
                if below > 0 {
                    below = below - 1;
                } else {
                    level = level + 1;
                    if level == 1 {
                        list_start_pos = pos;
                        term_start_pos = pos + 1;
                    }
                }
            },
            Token::CloseBrace => {
                if level == 0 {
                    below = below + 1;
                } else {
                    level = level - 1;
                    if level == 0 {
                        let ghost last = t.subrange(term_start_pos as int, p);
                        list_end_pos = pos + 1;
                        terms.push((term_start_pos, pos));
                        closed = true;
                        proof {
                            assert(closes_group(t, p));
                            assert(group_terms(t, a, p) == closed_terms(t, a, p).push(last));
                            assert forall|i: int| 0 <= i < terms@.len() implies #[trigger] t.subrange(
                                terms@[i].0 as int,
                                terms@[i].1 as int,
                            ) == group_terms(t, a, p)[i] by {
                                if i < old_terms.len() {
                                    assert(terms@[i] == old_terms[i]);
                                }
                            }
                        }
                    }
                }
            },
            Token::Comma => {
                if level == 1 {
                    let ghost last = t.subrange(term_start_pos as int, p);
                    terms.push((term_start_pos, pos));
                    term_start_pos = pos + 1;
                    proof {
                        assert(separates(t, p));
                        let prev = closed_terms(t, a, p);
                        assert(closed_terms(t, a, p + 1) == prev.push(last));
                        assert forall|i: int| 0 <= i < terms@.len() implies #[trigger] t.subrange(
                            terms@[i].0 as int,
                            terms@[i].1 as int,
                        ) == closed_terms(t, a, p + 1)[i] by {
                            if i < old_terms.len() {
                                assert(terms@[i] == old_terms[i]);
                            }
                        }
                    }
                }
            },
            Token::Char(_) => {},
        }
        if !closed {
            pos = pos + 1;
        }
    }

    if closed {
        let ghost a = list_start_pos as int;
        let ghost b = pos as int;
        proof {
            assert(has_group(t));
            lemma_group_bounds(t);
            assert(group_start(t) == a);
            assert(group_end(t) == b);
        }
        let mut results: Vec<Vec<Token>> = Vec::new();
        let mut k: usize = 0;
        while k < terms.len()
            invariant
                t == to_expand@,
                len == t.len(),
                has_group(t),
                group_start(t) == list_start_pos,
                group_end(t) == pos,
                list_start_pos < pos < len,
                list_end_pos == pos + 1,
                terms@.len() == derived(t).len(),
                forall|i: int|
                    #![trigger terms@[i]]
                0 <= i < terms@.len() ==> terms@[i].0 <= terms@[i].1 <= pos,
                forall|i: int|
                    0 <= i < terms@.len() ==> #[trigger] t.subrange(
                        terms@[i].0 as int,
                        terms@[i].1 as int,
                    ) == group_terms(t, list_start_pos as int, pos as int)[i],
                k <= terms@.len(),
                results@.len() == k,
                forall|i: int| 0 <= i < k ==> #[trigger] results@[i]@ == derived(t)[i],
            decreases terms@.len() - k,
        {
            let (term_lo, term_hi) = terms[k];
            let mut item: Vec<Token> = Vec::new();
            append_range(&mut item, &to_expand, 0, list_start_pos);
            append_range(&mut item, &to_expand, term_lo, term_hi);
            append_range(&mut item, &to_expand, list_end_pos, len);
            assert(item@ == derived(t)[k as int]);
            results.push(item);
            k = k + 1;
        }
        assert(views(results@) =~= derived(t));
        Expansion::Partial(results)
    } else {
        Expansion::Complete(convert_to_string(to_expand.as_slice()))
    }
}

/// Expands every brace group of `input`. The strings come in the order a
/// shell gives them: the alternatives of one group left to right, and of two
/// groups in a row the first one varying slowest.
pub fn brace_expand(input: &str) -> (r: Vec<String>)
    ensures
        texts(r@) == expansions(tokenize(input@)),
{
    let mut iter = TokenIter::new(input);
    let mut first: Vec<Token> = Vec::new();
    let mut done = false;
    while !done
        invariant
            !done ==> tokenize(input@) == first@ + tokenize(iter@),
            done ==> tokenize(input@) == first@,
        decreases iter@.len() + if done { 0int } else { 1int },
    {
        let ghost before = iter@;
        match iter.next() {
            Some(token) => {
                first.push(token);
                assert(tokenize(input@) == first@ + tokenize(iter@));
            },
            None => {
                assert(first@ + tokenize(before) =~= first@);
                done = true;
            },
        }
    }

    let ghost first_view = first@;
    let ghost target = expansions(first_view);
    let mut work_queue: Vec<Vec<Token>> = Vec::new();
    work_queue.push(first);
    let mut results: Vec<String> = Vec::new();
    proof {
        lemma_work_single(first_view);
        assert(views(work_queue@) =~= seq![first_view]);
        assert(texts(results@).reverse() =~= Seq::<Seq<char>>::empty());
        assert(all_expansions(seq![first_view]) + Seq::<Seq<char>>::empty()
            =~= all_expansions(seq![first_view]));
    }

    while work_queue.len() > 0
        invariant
            all_expansions(views(work_queue@)) + texts(results@).reverse() == target,
        decreases pending_steps(views(work_queue@)),
    {
        let ghost before = views(work_queue@);
        let ghost done_before = texts(results@);
        let to_expand = work_queue.pop().unwrap();
        let ghost w = to_expand@;
        let ghost rest = views(work_queue@);
        proof {
            assert(before =~= rest + seq![w]);
            lemma_work_concat(rest, seq![w]);
            lemma_work_single(w);
        }
        match expand_one_level(to_expand) {
            Expansion::Partial(mut new_work) => {
                let ghost added = views(new_work@);
                work_queue.append(&mut new_work);
                proof {
                    assert(has_group(w));
                    assert(added == derived(w));
                    assert(views(work_queue@) =~= rest + added);
                    lemma_work_concat(rest, added);
                    lemma_work_derived(w);
                }
            },
            Expansion::Complete(fully_expanded) => {
                results.push(fully_expanded);
                proof {
                    assert(!has_group(w));
                    assert(expansions(w) == seq![chars_of(w)]);
                    assert(texts(results@).reverse() =~= seq![chars_of(w)]
                        + done_before.reverse());
                    assert(views(work_queue@) =~= rest);
                }
            },
        }
    }

    assert(views(work_queue@) =~= Seq::<Seq<Token>>::empty());
    let ghost finished = texts(results@);
    assert(finished.reverse() =~= target);

    // The items were finished last one first; turn them round.
    let mut ordered: Vec<String> = Vec::new();
    while results.len() > 0
        invariant
            results@.len() + ordered@.len() == finished.len(),
            forall|i: int| 0 <= i < results@.len() ==> #[trigger] results@[i]@ == finished[i],
            forall|i: int|
                0 <= i < ordered@.len() ==> #[trigger] ordered@[i]@ == finished[finished.len() - 1
                    - i],
        decreases results@.len(),
    {
        let item = results.pop().unwrap();
        ordered.push(item);
    }
    assert(texts(ordered@) =~= finished.reverse());
    ordered
}

/// Appends `src[lo..hi]` to `out`.
fn append_range(out: &mut Vec<Token>, src: &Vec<Token>, lo: usize, hi: usize)
    requires
        lo <= hi <= src@.len(),
    ensures
        final(out)@ == old(out)@ + src@.subrange(lo as int, hi as int),
{
    let mut i: usize = lo;
    while i < hi
        invariant
            lo <= i <= hi <= src@.len(),
            out@ == old(out)@ + src@.subrange(lo as int, i as int),
        decreases hi - i,
    {
        out.push(src[i]);
        i = i + 1;
        assert(out@ =~= old(out)@ + src@.subrange(lo as int, i as int));
    }
}

} // verus!
