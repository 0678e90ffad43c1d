//! Token frequency tables and the splitting of text into tokens.
use crate::encoding::huffman::encoder::views;
use crate::encoding::huffman::tree::in_table;
use crate::token::Token;
use vstd::prelude::*;
use vstd::std_specs::iter::IteratorSpec;

verus! {

broadcast use vstd::string::group_string_axioms;

/// How many times `v` occurs in `s`.
pub open spec fn occurrences<V>(s: Seq<V>, v: V) -> nat
    decreases s.len(),
{
    if s.len() == 0 {
        0
    } else {
        occurrences(s.drop_last(), v) + if s.last() == v {
            1nat
        } else {
            0nat
        }
    }
}

/// The position of the first occurrence of `v` in `s`; -1 when it does not occur.
pub open spec fn first_index<V>(s: Seq<V>, v: V) -> int
    decreases s.len(),
{
    if s.len() == 0 {
        -1
    } else {
        let f = first_index(s.drop_last(), v);
        if f >= 0 {
            f
        } else if s.last() == v {
            s.len() - 1
        } else {
            -1
        }
    }
}

/// `table` counts the tokens of `s`: one entry for each token that occurs in
/// `s` and for no other, in the order of their first occurrences, each with
/// the number of its occurrences.
pub open spec fn counts_tokens<T: View>(table: Seq<(T, u32)>, s: Seq<T::V>) -> bool {
    &&& forall|i: int, j: int|
        0 <= i < j < table.len() ==> first_index(s, (#[trigger] table[i]).0@) < first_index(
            s,
            (#[trigger] table[j]).0@,
        )
    &&& forall|i: int, j: int|
        0 <= i < table.len() && 0 <= j < table.len() && i != j ==> (#[trigger] table[i]).0@
            != (#[trigger] table[j]).0@
    &&& forall|i: int|
        0 <= i < table.len() ==> (#[trigger] table[i]).1 == occurrences(s, table[i].0@)
            && occurrences(s, table[i].0@) > 0
    &&& forall|k: int|
        0 <= k < s.len() ==> exists|i: int| 0 <= i < table.len() && (#[trigger] table[i]).0@ == #[trigger] s[k]
}

/// The characters of a text, in order.
pub fn chars_of(text: &str) -> (r: Vec<char>)
    ensures
        r@ == text@,
{
    let mut out: Vec<char> = Vec::new();
    for c in it: text.chars()
        invariant
            out@ == it.seq().take(it.index() as int),
            it.seq() == text@,
    {
        out.push(c);
    }
    out
}

/// The pieces of `s` when it is cut after each `sep`: every piece but the
/// last ends with `sep`, no piece holds `sep` elsewhere, and no piece is empty.
pub open spec fn split_after(s: Seq<char>, sep: char) -> Seq<Seq<char>>
    decreases s.len(),
{
    if s.len() == 0 {
        Seq::empty()
    } else {
        let prev = split_after(s.drop_last(), sep);
        if prev.len() > 0 && prev.last().last() != sep {
            prev.drop_last().push(prev.last().push(s.last()))
        } else {
            prev.push(seq![s.last()])
        }
    }
}

/// The views of a sequence of strings.
pub open spec fn string_views(v: Seq<String>) -> Seq<Seq<char>> {
    v.map_values(|s: String| s@)
}

/// Relies on `String::push`: appends one character.
#[verifier::external_body]
fn push_char(s: &mut String, c: char)
    ensures
        final(s)@ == old(s)@.push(c),
{
    s.push(c)
}

/// Cuts a text after each `sep`, as `str::split_inclusive` does.
pub fn pieces_of(text: &str, sep: char) -> (r: Vec<String>)
    ensures
        string_views(r@) == split_after(text@, sep),
{
    let mut done: Vec<String> = Vec::new();
    let mut cur = String::new();
    let ghost mut pos: int = 0;
    for c in it: text.chars()
        invariant
            it.seq() == text@,
            pos == it.index(),
            cur@.len() > 0 ==> cur@.last() != sep,
            string_views(done@).len() > 0 ==> string_views(done@).last().last() == sep,
            split_after(text@.take(pos), sep) == if cur@.len() == 0 {
                string_views(done@)
            } else {
                string_views(done@).push(cur@)
            },
    {
        let ghost p = it.seq().take(it.index() as int);
        let ghost d0 = string_views(done@);
        let ghost c0 = cur@;
        proof {
            assert(it.seq().take(it.index() + 1).drop_last() =~= p);
            assert(it.seq().take(it.index() + 1).last() == c);
        }
        push_char(&mut cur, c);
        proof {
            pos = pos + 1;
        }
        if c == sep {
            done.push(cur);
            cur = String::new();
            proof {
                assert(string_views(done@) =~= d0.push(c0.push(c)));
                if c0.len() > 0 {
                    assert(d0.push(c0).drop_last() =~= d0);
                }
                assert(c0.len() == 0 ==> c0.push(c) =~= seq![c]);
            }
        } else {
            proof {
                if c0.len() > 0 {
                    assert(d0.push(c0).drop_last() =~= d0);
                } else {
                    assert(c0.push(c) =~= seq![c]);
                }
            }
        }
    }
    proof {
        assert(text@.take(pos) =~= text@);
    }
    if !cur.as_str().is_empty() {
        let ghost d0 = string_views(done@);
        done.push(cur);
        proof {
            assert(string_views(done@) =~= d0.push(cur@));
        }
    }
    done
}

proof fn lemma_first_index<V>(s: Seq<V>, v: V)
    ensures
        first_index(s, v) >= 0 <==> occurrences(s, v) > 0,
        first_index(s, v) < s.len(),
        first_index(s, v) >= -1,
    decreases s.len(),
{
    if s.len() > 0 {
        lemma_first_index(s.drop_last(), v);
    }
}

/// A prefix holds no more occurrences of a token than the whole sequence.
proof fn lemma_occurrences_prefix<V>(s: Seq<V>, n: int, v: V)
    requires
        0 <= n <= s.len(),
    ensures
        occurrences(s.take(n), v) <= occurrences(s, v),
    decreases s.len() - n,
{
    if n < s.len() {
        lemma_occurrences_prefix(s, n + 1, v);
        assert(s.take(n + 1).drop_last() =~= s.take(n));
    } else {
        assert(s.take(n) =~= s);
    }
}

/// The position of the entry for `token`, if the table has one.
fn position_of<T: Token>(table: &Vec<(T, u32)>, token: &T) -> (r: Option<usize>)
    ensures
        match r {
            Some(i) => i < table@.len() && table@[i as int].0@ == token@,
            None => forall|k: int| 0 <= k < table@.len() ==> (#[trigger] table@[k]).0@ != token@,
        },
{
    let mut i: usize = 0;
    while i < table.len()
        invariant
            i <= table@.len(),
            forall|k: int| 0 <= k < i ==> (#[trigger] table@[k]).0@ != token@,
        decreases table@.len() - i,
    {
        if table[i].0.same_token(token) {
            return Some(i);
        }
        i += 1;
    }
    None
}

/// Counts one more occurrence of `token` in the table.
fn add_occurrence<T: Token>(table: &mut Vec<(T, u32)>, token: &T, Ghost(s): Ghost<Seq<T::V>>)
    requires
        counts_tokens(old(table)@, s),
        occurrences(s, token@) < u32::MAX,
    ensures
        counts_tokens(final(table)@, s.push(token@)),
{
    let ghost s2 = s.push(token@);
    let ghost t0 = table@;
    proof {
        assert(s2.drop_last() =~= s);
        assert forall|v: T::V| #[trigger] occurrences(s2, v) == occurrences(s, v) + if token@ == v {
            1nat
        } else {
            0nat
        } by {
            assert(s2.drop_last() =~= s);
        }
        assert forall|v: T::V| #[trigger] first_index(s2, v) == if first_index(s, v) >= 0 {
            first_index(s, v)
        } else if token@ == v {
            s.len() as int
        } else {
            -1
        } by {
            assert(s2.drop_last() =~= s);
        }
    }
    match position_of(table, token) {
        Some(i) => {
            proof {
                assert(t0[i as int].1 == occurrences(s, token@));
                assert forall|j: int| 0 <= j < t0.len() implies first_index(s, (#[trigger] t0[j]).0@) >= 0 by {
                    lemma_first_index(s, t0[j].0@);
                }
            }
            let key = table[i].0.duplicate();
            let c = table[i].1;
            table.set(i, (key, c + 1));
            proof {
                assert forall|j: int| 0 <= j < table@.len() implies (#[trigger] table@[j]).0@ == t0[j].0@ && (j
                    != i ==> table@[j] == t0[j]) by {}
                assert forall|a: int, b: int|
                    0 <= a < table@.len() && 0 <= b < table@.len() && a != b implies (#[trigger] table@[a]).0@
                    != (#[trigger] table@[b]).0@ by {
                    assert(t0[a].0@ != t0[b].0@);
                }
                assert forall|j: int| 0 <= j < table@.len() implies (#[trigger] table@[j]).1 == occurrences(
                    s2,
                    table@[j].0@,
                ) && occurrences(s2, table@[j].0@) > 0 by {
                    if j != i {
                        assert(t0[j].0@ != t0[i as int].0@);
                        assert(occurrences(s2, t0[j].0@) == occurrences(s, t0[j].0@));
                    } else {
                        assert(occurrences(s2, token@) == occurrences(s, token@) + 1);
                    }
                }
                assert forall|k: int| 0 <= k < s2.len() implies exists|j: int|
                    0 <= j < table@.len() && (#[trigger] table@[j]).0@ == #[trigger] s2[k] by {
                    if k < s.len() {
                        assert(s2[k] == s[k]);
                        let j = choose|j: int| 0 <= j < t0.len() && (#[trigger] t0[j]).0@ == s[k];
                        assert(table@[j].0@ == t0[j].0@);
                    } else {
                        assert(table@[i as int].0@ == s2[k]);
                    }
                }
            }
        },
        None => {
            table.push((token.duplicate(), 1));
            proof {
                assert(occurrences(s, token@) == 0) by {
                    if occurrences(s, token@) > 0 {
                        lemma_occurrence_found(s, token@);
                        let k = choose|k: int| 0 <= k < s.len() && s[k] == token@;
                        let j = choose|j: int| 0 <= j < t0.len() && (#[trigger] t0[j]).0@ == s[k];
                    }
                }
                assert forall|j: int| 0 <= j < t0.len() implies 0 <= first_index(s, (#[trigger] t0[j]).0@) < s.len() by {
                    lemma_first_index(s, t0[j].0@);
                }
                lemma_first_index(s, token@);
                assert forall|a: int, b: int| 0 <= a < b < table@.len() implies first_index(s2, (#[trigger] table@[a]).0@) < first_index(
                    s2,
                    (#[trigger] table@[b]).0@,
                ) by {
                    assert(table@[a] == t0[a]);
                    if b < t0.len() {
                        assert(table@[b] == t0[b]);
                    }
                }
                assert forall|k: int| 0 <= k < s2.len() implies exists|j: int|
                    0 <= j < table@.len() && (#[trigger] table@[j]).0@ == #[trigger] s2[k] by {
                    if k < s.len() {
                        assert(s2[k] == s[k]);
                        let j = choose|j: int| 0 <= j < t0.len() && (#[trigger] t0[j]).0@ == s[k];
                        assert(table@[j] == t0[j]);
                    } else {
                        assert(table@[t0.len() as int].0@ == s2[k]);
                    }
                }
            }
        },
    }
}

proof fn lemma_occurrence_found<V>(s: Seq<V>, v: V)
    requires
        occurrences(s, v) > 0,
    ensures
        exists|k: int| 0 <= k < s.len() && s[k] == v,
    decreases s.len(),
{
    if s.last() == v {
        assert(s[s.len() - 1] == v);
    } else {
        lemma_occurrence_found(s.drop_last(), v);
        let k = choose|k: int| 0 <= k < s.len() - 1 && s.drop_last()[k] == v;
        assert(s[k] == v);
    }
}

/// The frequency table of a token sequence: one entry per distinct token, in
/// the order of first occurrence, with the number of its occurrences.
pub fn frequencies_of<T: Token>(tokens: &Vec<T>) -> (r: Vec<(T, u32)>)
    requires
        forall|v: T::V| #[trigger] occurrences(views(tokens@), v) <= u32::MAX,
    ensures
        counts_tokens(r@, views(tokens@)),
{
    let ghost vs = views(tokens@);
    let mut table: Vec<(T, u32)> = Vec::new();
    let mut i: usize = 0;
    while i < tokens.len()
        invariant
            i <= tokens@.len(),
            forall|v: T::V| #[trigger] occurrences(vs, v) <= u32::MAX,
            vs == views(tokens@),
            counts_tokens(table@, vs.take(i as int)),
        decreases tokens@.len() - i,
    {
        proof {
            assert(vs.take(i + 1).drop_last() =~= vs.take(i as int));
            assert(vs.take(i + 1).last() == tokens@[i as int]@);
            lemma_occurrences_prefix(vs, i + 1, tokens@[i as int]@);
            assert(occurrences(vs, tokens@[i as int]@) <= u32::MAX);
        }
        add_occurrence(&mut table, &tokens[i], Ghost(vs.take(i as int)));
        proof {
            assert(vs.take(i as int).push(tokens@[i as int]@) =~= vs.take(i + 1));
        }
        i += 1;
    }
    proof {
        assert(vs.take(i as int) =~= vs);
    }
    table
}

/// The count of `token` in a frequency table, if it has an entry.
pub fn frequency_of<T: Token>(table: &Vec<(T, u32)>, token: &T) -> (r: Option<u32>)
    ensures
        match r {
            Some(c) => exists|i: int| 0 <= i < table@.len() && (#[trigger] table@[i]).0@ == token@ && table@[i].1 == c,
            None => !in_table(table@, token@),
        },
{
    match position_of(table, token) {
        Some(i) => Some(table[i].1),
        None => None,
    }
}

/// The pieces joined back together.
pub open spec fn concat_all(ps: Seq<Seq<char>>) -> Seq<char>
    decreases ps.len(),
{
    if ps.len() == 0 {
        Seq::empty()
    } else {
        concat_all(ps.drop_last()) + ps.last()
    }
}

/// The words of each line, cut after each space, one line after another.
pub open spec fn words_in_lines(lines: Seq<Seq<char>>) -> Seq<Seq<char>>
    decreases lines.len(),
{
    if lines.len() == 0 {
        Seq::empty()
    } else {
        words_in_lines(lines.drop_last()) + split_after(lines.last(), ' ')
    }
}

/// The words of a text: its lines, each ending after a newline, cut after each space.
pub open spec fn words_in(text: Seq<char>) -> Seq<Seq<char>> {
    words_in_lines(split_after(text, '\n'))
}

/// Cutting a text into pieces loses nothing, and gives no more pieces than characters.
pub proof fn lemma_split_after_concat(s: Seq<char>, sep: char)
    ensures
        concat_all(split_after(s, sep)) == s,
        split_after(s, sep).len() <= s.len(),
    decreases s.len(),
{
    if s.len() > 0 {
        let prev = split_after(s.drop_last(), sep);
        lemma_split_after_concat(s.drop_last(), sep);
        if prev.len() > 0 && prev.last().last() != sep {
            let next = prev.drop_last().push(prev.last().push(s.last()));
            assert(next.drop_last() =~= prev.drop_last());
            assert(concat_all(prev) == concat_all(prev.drop_last()) + prev.last());
            assert(next.last() == prev.last().push(s.last()));
            assert(concat_all(next) == concat_all(prev.drop_last()) + prev.last().push(s.last()));
            assert(concat_all(prev.drop_last()) + prev.last().push(s.last()) =~= (concat_all(
                prev.drop_last(),
            ) + prev.last()).push(s.last()));
            assert(s.drop_last().push(s.last()) =~= s);
        } else {
            let next = prev.push(seq![s.last()]);
            assert(next.drop_last() =~= prev);
            assert(concat_all(next) =~= s);
        }
    }
}

/// The words of the lines, one line after another.
pub fn words_of_lines(lines: &Vec<String>) -> (r: Vec<String>)
    ensures
        string_views(r@) == words_in_lines(string_views(lines@)),
{
    let mut words: Vec<String> = Vec::new();
    let mut i: usize = 0;
    proof {
        assert(string_views(lines@).take(0) =~= Seq::<Seq<char>>::empty());
        assert(string_views(words@) =~= Seq::<Seq<char>>::empty());
    }
    while i < lines.len()
        invariant
            i <= lines@.len(),
            string_views(words@) == words_in_lines(string_views(lines@).take(i as int)),
        decreases lines@.len() - i,
    {
        let pieces = pieces_of(lines[i].as_str(), ' ');
        let ghost w0 = string_views(words@);
        let mut j: usize = 0;
        while j < pieces.len()
            invariant
                j <= pieces@.len(),
                string_views(words@) == w0 + string_views(pieces@).take(j as int),
            decreases pieces@.len() - j,
        {
            let ghost w1 = string_views(words@);
            let piece = pieces[j].clone();
            words.push(piece);
            proof {
                assert(string_views(words@) =~= w1.push(pieces@[j as int]@));
                assert(string_views(pieces@).take(j + 1) =~= string_views(pieces@).take(j as int).push(
                    pieces@[j as int]@,
                ));
                assert(string_views(words@) =~= w0 + string_views(pieces@).take(j + 1));
            }
            j += 1;
        }
        proof {
            let ls = string_views(lines@).take(i + 1);
            assert(ls.drop_last() =~= string_views(lines@).take(i as int));
            assert(ls.last() == lines@[i as int]@);
            assert(string_views(pieces@).take(j as int) =~= string_views(pieces@));
        }
        i += 1;
    }
    proof {
        assert(string_views(lines@).take(i as int) =~= string_views(lines@));
    }
    words
}

} // verus!
