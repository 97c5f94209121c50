//! Text as sequences of characters: the few string operations that the rest of
//! the library is built on, each with its meaning on `Seq<char>`.
use vstd::prelude::*;
use vstd::relations::{
    antisymmetric, reflexive, sorted_by, strongly_connected, total_ordering, transitive,
};
use vstd::std_specs::iter::IteratorSpec;
use vstd::string::StrSliceExecFns;
use vstd::string::StringExecFns;

verus! {

/// The part of `s` in front of the first `c`; all of `s` if it has none.
pub open spec fn before(s: Seq<char>, c: char) -> Seq<char> {
    match s.index_of_first(c) {
        Some(i) => s.take(i),
        None => s,
    }
}

/// `parts` with `sep` between each two neighbours.
pub open spec fn joined(parts: Seq<Seq<char>>, sep: Seq<char>) -> Seq<char>
    decreases parts.len(),
{
    if parts.len() == 0 {
        Seq::empty()
    } else if parts.len() == 1 {
        parts[0]
    } else {
        joined(parts.drop_last(), sep) + sep + parts.last()
    }
}

/// The decimal digit that stands for `d`.
pub open spec fn digit(d: nat) -> char {
    ('0' as nat + d) as char
}

/// The decimal notation of `n`, without leading zeros.
pub open spec fn decimal(n: nat) -> Seq<char>
    decreases n,
{
    if n < 10 {
        seq![digit(n)]
    } else {
        decimal(n / 10).push(digit(n % 10))
    }
}

/// Lexicographic order by code point.
pub open spec fn lex_le(a: Seq<char>, b: Seq<char>) -> bool
    decreases a.len(),
{
    if a.len() == 0 {
        true
    } else if b.len() == 0 {
        false
    } else if a[0] == b[0] {
        lex_le(a.drop_first(), b.drop_first())
    } else {
        a[0] < b[0]
    }
}

/// [`lex_le`] as a value, for the ordering lemmas of the standard library.
pub open spec fn lex_order() -> spec_fn(Seq<char>, Seq<char>) -> bool {
    |a: Seq<char>, b: Seq<char>| lex_le(a, b)
}

/// Whether `c` is white space, by the Unicode property of that name.
pub open spec fn is_white_space(c: char) -> bool {
    ||| '\u{9}' <= c <= '\u{d}'
    ||| c == ' '
    ||| c == '\u{85}'
    ||| c == '\u{a0}'
    ||| c == '\u{1680}'
    ||| '\u{2000}' <= c <= '\u{200a}'
    ||| c == '\u{2028}'
    ||| c == '\u{2029}'
    ||| c == '\u{202f}'
    ||| c == '\u{205f}'
    ||| c == '\u{3000}'
}

/// `s` without the white space in front.
pub open spec fn trimmed_start(s: Seq<char>) -> Seq<char>
    decreases s.len(),
{
    if s.len() > 0 && is_white_space(s[0]) {
        trimmed_start(s.drop_first())
    } else {
        s
    }
}

/// `s` without the white space at the end.
pub open spec fn trimmed_end(s: Seq<char>) -> Seq<char>
    decreases s.len(),
{
    if s.len() > 0 && is_white_space(s.last()) {
        trimmed_end(s.drop_last())
    } else {
        s
    }
}

/// `s` without the white space around it.
pub open spec fn trimmed(s: Seq<char>) -> Seq<char> {
    trimmed_end(trimmed_start(s))
}

/// The texts that a list of strings holds.
pub open spec fn texts(v: Seq<String>) -> Seq<Seq<char>> {
    v.map_values(|s: String| s@)
}

/// Whether two strings hold the same text.
pub fn text_eq(a: &str, b: &str) -> (r: bool)
    ensures
        r == (a@ == b@),
{
    let mut left = a.chars();
    let mut right = b.chars();
    let ghost mut i: int = 0;
    proof {
        assert(a@.skip(0) =~= a@);
        assert(b@.skip(0) =~= b@);
    }
    loop
        invariant
            0 <= i <= a@.len(),
            i <= b@.len(),
            left.remaining() == a@.skip(i),
            right.remaining() == b@.skip(i),
            a@.take(i) == b@.take(i),
        decreases a@.len() - i,
    {
        match (left.next(), right.next()) {
            (Some(x), Some(y)) => {
                if x != y {
                    assert(a@[i] != b@[i]);
                    return false;
                }
                proof {
                    assert(a@.skip(i).drop_first() =~= a@.skip(i + 1));
                    assert(b@.skip(i).drop_first() =~= b@.skip(i + 1));
                    assert(a@.take(i + 1) =~= a@.take(i).push(a@[i]));
                    assert(b@.take(i + 1) =~= b@.take(i).push(b@[i]));
                    i = i + 1;
                }
            },
            (None, None) => {
                assert(a@ =~= a@.take(i));
                assert(b@ =~= b@.take(i));
                return true;
            },
            _ => {
                assert(a@.len() != b@.len());
                return false;
            },
        }
    }
}


/// The part of `s` in front of the first `c`; all of `s` if it has none.
pub fn text_before(s: &str, c: char) -> (r: &str)
    ensures
        r@ == before(s@, c),
{
    let mut rest = s.chars();
    let mut i: usize = 0;
    let total: usize = s.unicode_len();
    proof {
        assert(s@.skip(0) =~= s@);
    }
    while i < total
        invariant
            i <= total,
            total == s@.len(),
            rest.remaining() == s@.skip(i as int),
            forall|k: int| 0 <= k < i ==> s@[k] != c,
        decreases total - i,
    {
        let next = rest.next();
        proof {
            assert(s@.skip(i as int).drop_first() =~= s@.skip(i + 1));
        }
        if next == Some(c) {
            proof {
                lemma_before_at(s@, c, i as int);
            }
            return s.substring_char(0, i);
        }
        i = i + 1;
    }
    proof {
        s@.index_of_first_ensures(c);
    }
    s
}

/// The first occurrence of `c` in `s` is at `i`.
proof fn lemma_before_at(s: Seq<char>, c: char, i: int)
    requires
        0 <= i < s.len(),
        s[i] == c,
        forall|k: int| 0 <= k < i ==> s[k] != c,
    ensures
        before(s, c) == s.take(i),
{
    s.index_of_first_ensures(c);
}

/// Whether `c` is white space.
fn char_is_white_space(c: char) -> (r: bool)
    ensures
        r == is_white_space(c),
{
    ('\u{9}' <= c && c <= '\u{d}') || c == ' ' || c == '\u{85}' || c == '\u{a0}' || c
        == '\u{1680}' || ('\u{2000}' <= c && c <= '\u{200a}') || c == '\u{2028}' || c == '\u{2029}'
        || c == '\u{202f}' || c == '\u{205f}' || c == '\u{3000}'
}

/// The characters of `s`.
pub fn chars_of(s: &str) -> (r: Vec<char>)
    ensures
        r@ == s@,
{
    let mut out: Vec<char> = Vec::new();
    let mut rest = s.chars();
    proof {
        assert(s@.skip(0) =~= s@);
    }
    loop
        invariant
            out@.len() <= s@.len(),
            out@ == s@.take(out@.len() as int),
            rest.remaining() == s@.skip(out@.len() as int),
        decreases s@.len() - out@.len(),
    {
        let ghost i = out@.len() as int;
        match rest.next() {
            Some(c) => {
                out.push(c);
                proof {
                    assert(s@.skip(i).drop_first() =~= s@.skip(i + 1));
                    assert(s@.take(i + 1) =~= s@.take(i).push(s@[i]));
                }
            },
            None => {
                assert(s@.take(i) =~= s@);
                return out;
            },
        }
    }
}

/// `s` without the white space around it.
pub fn text_trim(s: &str) -> (r: &str)
    ensures
        r@ == trimmed(s@),
{
    let chars = chars_of(s);
    let mut from: usize = 0;
    assert(s@.skip(0) =~= s@);
    while from < chars.len() && char_is_white_space(chars[from])
        invariant
            chars@ == s@,
            from <= chars@.len(),
            trimmed_start(s@) == trimmed_start(s@.skip(from as int)),
        decreases chars@.len() - from,
    {
        assert(s@.skip(from as int).drop_first() =~= s@.skip(from + 1));
        from = from + 1;
    }
    let mut to: usize = chars.len();
    assert(s@.subrange(from as int, to as int) =~= s@.skip(from as int));
    while to > from && char_is_white_space(chars[to - 1])
        invariant
            chars@ == s@,
            from <= to <= chars@.len(),
            trimmed(s@) == trimmed_end(s@.subrange(from as int, to as int)),
        decreases to,
    {
        assert(s@.subrange(from as int, to as int).drop_last() =~= s@.subrange(
            from as int,
            to - 1,
        ));
        to = to - 1;
    }
    s.substring_char(from, to)
}

/// Whether `s` begins with `prefix`.
pub fn text_starts_with(s: &str, prefix: &str) -> (r: bool)
    ensures
        r == prefix@.is_prefix_of(s@),
{
    let mut rest = s.chars();
    let mut expected = prefix.chars();
    let ghost mut i: int = 0;
    proof {
        assert(s@.skip(0) =~= s@);
        assert(prefix@.skip(0) =~= prefix@);
    }
    loop
        invariant
            0 <= i <= s@.len(),
            i <= prefix@.len(),
            rest.remaining() == s@.skip(i),
            expected.remaining() == prefix@.skip(i),
            s@.take(i) == prefix@.take(i),
        decreases prefix@.len() - i,
    {
        match expected.next() {
            None => {
                assert(prefix@ =~= prefix@.take(i));
                return true;
            },
            Some(y) => {
                let found = rest.next();
                if found != Some(y) {
                    return false;
                }
                proof {
                    assert(s@.skip(i).drop_first() =~= s@.skip(i + 1));
                    assert(prefix@.skip(i).drop_first() =~= prefix@.skip(i + 1));
                    assert(s@.take(i + 1) =~= s@.take(i).push(s@[i]));
                    assert(prefix@.take(i + 1) =~= prefix@.take(i).push(prefix@[i]));
                    i = i + 1;
                }
            },
        }
    }
}

/// `parts` with `sep` between each two neighbours.
pub fn join(parts: &Vec<String>, sep: &str) -> (r: String)
    ensures
        r@ == joined(texts(parts@), sep@),
{
    let mut out = String::new();
    let mut i: usize = 0;
    while i < parts.len()
        invariant
            i <= parts@.len(),
            out@ == joined(texts(parts@).take(i as int), sep@),
        decreases parts@.len() - i,
    {
        if i > 0 {
            out.append(sep);
        }
        out.append(parts[i].as_str());
        proof {
            let all = texts(parts@);
            assert(all.take(i + 1).drop_last() =~= all.take(i as int));
            assert(all.take(i + 1).last() == parts@[i as int]@);
        }
        i = i + 1;
    }
    assert(texts(parts@).take(i as int) =~= texts(parts@));
    out
}

/// All of `parts`, one after the other.
pub fn concat_texts(parts: &Vec<String>) -> (r: String)
    ensures
        r@ == texts(parts@).flatten(),
{
    let mut out = String::new();
    let mut i: usize = 0;
    proof {
        assert(texts(parts@).take(0) =~= Seq::<Seq<char>>::empty());
    }
    while i < parts.len()
        invariant
            i <= parts@.len(),
            out@ == texts(parts@).take(i as int).flatten(),
        decreases parts@.len() - i,
    {
        out.append(parts[i].as_str());
        proof {
            let all = texts(parts@);
            assert(all.take(i + 1) =~= all.take(i as int).push(all[i as int]));
            all.take(i as int).lemma_flatten_push(all[i as int]);
        }
        i = i + 1;
    }
    assert(texts(parts@).take(i as int) =~= texts(parts@));
    out
}

/// The one-character text of a decimal digit.
fn digit_text(d: u64) -> (r: &'static str)
    requires
        d < 10,
    ensures
        r@ == seq![digit(d as nat)],
{
    proof {
        reveal_strlit("0");
        reveal_strlit("1");
        reveal_strlit("2");
        reveal_strlit("3");
        reveal_strlit("4");
        reveal_strlit("5");
        reveal_strlit("6");
        reveal_strlit("7");
        reveal_strlit("8");
        reveal_strlit("9");
    }
    match d {
        0 => "0",
        1 => "1",
        2 => "2",
        3 => "3",
        4 => "4",
        5 => "5",
        6 => "6",
        7 => "7",
        8 => "8",
        _ => "9",
    }
}

/// The decimal notation of `n`, without leading zeros.
pub fn decimal_text(n: u64) -> (r: String)
    ensures
        r@ == decimal(n as nat),
    decreases n,
{
    if n < 10 {
        digit_text(n).to_owned()
    } else {
        let mut out = decimal_text(n / 10);
        out.append(digit_text(n % 10));
        assert(out@ =~= decimal(n as nat));
        out
    }
}

/// Whether `a` stands before `b`, or is the same text.
pub fn text_le(a: &str, b: &str) -> (r: bool)
    ensures
        r == lex_le(a@, b@),
{
    let mut left = a.chars();
    let mut right = b.chars();
    let ghost mut i: int = 0;
    proof {
        assert(a@.skip(0) =~= a@);
        assert(b@.skip(0) =~= b@);
    }
    loop
        invariant
            0 <= i <= a@.len(),
            i <= b@.len(),
            left.remaining() == a@.skip(i),
            right.remaining() == b@.skip(i),
            lex_le(a@, b@) == lex_le(a@.skip(i), b@.skip(i)),
        decreases a@.len() - i,
    {
        match left.next() {
            None => {
                return true;
            },
            Some(x) => match right.next() {
                None => {
                    return false;
                },
                Some(y) => {
                    if x != y {
                        return x < y;
                    }
                    proof {
                        assert(a@.skip(i).drop_first() =~= a@.skip(i + 1));
                        assert(b@.skip(i).drop_first() =~= b@.skip(i + 1));
                        i = i + 1;
                    }
                },
            },
        }
    }
}

proof fn lemma_lex_reflexive(a: Seq<char>)
    ensures
        lex_le(a, a),
    decreases a.len(),
{
    if a.len() > 0 {
        lemma_lex_reflexive(a.drop_first());
    }
}

proof fn lemma_lex_connected(a: Seq<char>, b: Seq<char>)
    ensures
        lex_le(a, b) || lex_le(b, a),
    decreases a.len(),
{
    if a.len() > 0 && b.len() > 0 && a[0] == b[0] {
        lemma_lex_connected(a.drop_first(), b.drop_first());
    }
}

proof fn lemma_lex_antisymmetric(a: Seq<char>, b: Seq<char>)
    requires
        lex_le(a, b),
        lex_le(b, a),
    ensures
        a == b,
    decreases a.len(),
{
    if a.len() > 0 {
        lemma_lex_antisymmetric(a.drop_first(), b.drop_first());
        assert(a =~= seq![a[0]] + a.drop_first());
        assert(b =~= seq![b[0]] + b.drop_first());
    } else {
        assert(a =~= b);
    }
}

proof fn lemma_lex_transitive(a: Seq<char>, b: Seq<char>, c: Seq<char>)
    requires
        lex_le(a, b),
        lex_le(b, c),
    ensures
        lex_le(a, c),
    decreases a.len(),
{
    if a.len() > 0 && a[0] == b[0] && b[0] == c[0] {
        lemma_lex_transitive(a.drop_first(), b.drop_first(), c.drop_first());
    }
}

/// The lexicographic order is total: it puts any two texts in one order, and
/// only equal texts in both.
pub proof fn law_lex_order_is_total()
    ensures
        total_ordering(lex_order()),
{
    let leq = lex_order();
    assert forall|a: Seq<char>| #[trigger] leq(a, a) by {
        lemma_lex_reflexive(a);
    }
    assert forall|a: Seq<char>, b: Seq<char>| #[trigger] leq(a, b) && #[trigger] leq(b, a) implies a
        == b by {
        lemma_lex_antisymmetric(a, b);
    }
    assert forall|a: Seq<char>, b: Seq<char>, c: Seq<char>| #[trigger]
        leq(a, b) && #[trigger] leq(b, c) implies leq(a, c) by {
        lemma_lex_transitive(a, b, c);
    }
    assert forall|a: Seq<char>, b: Seq<char>| #[trigger] leq(a, b) || #[trigger] leq(b, a) by {
        lemma_lex_connected(a, b);
    }
    assert(reflexive(leq));
    assert(antisymmetric(leq));
    assert(transitive(leq));
    assert(strongly_connected(leq));
}

/// Puts `v` in lexicographic order.
pub fn sort_texts(v: Vec<String>) -> (r: Vec<String>)
    ensures
        texts(r@) == texts(v@).sort_by(lex_order()),
{
    broadcast use vstd::seq_lib::group_to_multiset_ensures;

    let mut out: Vec<String> = Vec::new();
    let mut i: usize = 0;
    proof {
        assert(texts(out@) =~= Seq::<Seq<char>>::empty());
        assert(texts(v@).take(0) =~= Seq::<Seq<char>>::empty());
    }
    while i < v.len()
        invariant
            i <= v@.len(),
            sorted_by(texts(out@), lex_order()),
            texts(out@).to_multiset() =~= texts(v@).take(i as int).to_multiset(),
        decreases v@.len() - i,
    {
        let item = v[i].clone();
        insert_sorted(&mut out, item);
        proof {
            let all = texts(v@);
            assert(all.take(i + 1) =~= all.take(i as int).push(all[i as int]));
            vstd::seq_lib::to_multiset_build(all.take(i as int), all[i as int]);
        }
        i = i + 1;
    }
    proof {
        let all = texts(v@);
        assert(all.take(i as int) =~= all);
        law_lex_order_is_total();
        all.lemma_sort_by_ensures(lex_order());
        vstd::seq_lib::lemma_sorted_unique(texts(out@), all.sort_by(lex_order()), lex_order());
    }
    out
}

/// Inserts `item` into a sorted list, behind everything that is not greater.
fn insert_sorted(list: &mut Vec<String>, item: String)
    requires
        sorted_by(texts(old(list)@), lex_order()),
    ensures
        sorted_by(texts(final(list)@), lex_order()),
        texts(final(list)@).to_multiset() =~= texts(old(list)@).to_multiset().insert(item@),
{
    broadcast use vstd::seq_lib::group_to_multiset_ensures;

    let mut at: usize = 0;
    while at < list.len() && text_le(list[at].as_str(), item.as_str())
        invariant
            at <= list@.len(),
            list@ == old(list)@,
            forall|k: int| 0 <= k < at ==> lex_le(#[trigger] list@[k]@, item@),
        decreases list@.len() - at,
    {
        at = at + 1;
    }
    let ghost sorted = texts(list@);
    let ghost text = item@;
    list.insert(at, item);
    proof {
        law_lex_order_is_total();
        let leq = lex_order();
        let grown = texts(list@);
        assert(grown =~= sorted.insert(at as int, text));
        assert forall|a: int, b: int| 0 <= a < b < grown.len() implies #[trigger] leq(
            grown[a],
            grown[b],
        ) by {
            if at < sorted.len() {
                assert(!lex_le(sorted[at as int], text));
                assert(leq(text, sorted[at as int]) || leq(sorted[at as int], text));
            }
            let x = if a < at { a } else { a - 1 };
            let y = if b < at { b } else { b - 1 };
            if a == at {
                if b - 1 > at {
                    assert(leq(sorted[at as int], sorted[b - 1]));
                    assert(leq(text, sorted[at as int]));
                }
            } else if b == at {
                assert(sorted[a] == list@[a]@);
            } else {
                assert(leq(sorted[x], sorted[y]));
            }
        }
        sorted.insert_ensures(at as int, text);
    }
}

/// Parts that are not empty and do not hold the separator can be told apart in
/// what they are joined to.
pub proof fn law_joined_parts_can_be_told_apart(a: Seq<Seq<char>>, b: Seq<Seq<char>>, sep: char)
    requires
        forall|i: int| 0 <= i < a.len() ==> !(#[trigger] a[i]).contains(sep) && a[i].len() > 0,
        forall|i: int| 0 <= i < b.len() ==> !(#[trigger] b[i]).contains(sep) && b[i].len() > 0,
        joined(a, seq![sep]) == joined(b, seq![sep]),
    ensures
        a == b,
    decreases a.len(),
{
    if a.len() == 0 || b.len() == 0 {
        if a.len() > 0 {
            lemma_last_part(a, sep);
        }
        if b.len() > 0 {
            lemma_last_part(b, sep);
        }
        assert(a =~= b);
    } else {
        let text = joined(a, seq![sep]);
        lemma_last_part(a, sep);
        lemma_last_part(b, sep);
        let x = a.last();
        let y = b.last();
        let n = text.len() as int;
        if x.len() < y.len() {
            assert(a.len() > 1);
            assert(text[n - x.len() - 1] == sep);
            assert(text[n - x.len() - 1] == y[y.len() - x.len() - 1]);
            assert(y.contains(sep));
            assert(b[b.len() - 1] == y);
        }
        if y.len() < x.len() {
            assert(b.len() > 1);
            assert(text[n - y.len() - 1] == sep);
            assert(text[n - y.len() - 1] == x[x.len() - y.len() - 1]);
            assert(x.contains(sep));
            assert(a[a.len() - 1] == x);
        }
        assert(x =~= text.skip(n - x.len()));
        assert(y =~= text.skip(n - x.len()));
        if a.len() == 1 {
            assert(b.len() == 1);
            assert(a =~= b);
        } else {
            assert(b.len() > 1);
            assert(joined(a.drop_last(), seq![sep]) =~= text.take(n - x.len() - 1));
            assert(joined(b.drop_last(), seq![sep]) =~= text.take(n - x.len() - 1));
            assert forall|i: int| 0 <= i < a.len() - 1 implies !(
            #[trigger] a.drop_last()[i]).contains(sep) && a.drop_last()[i].len() > 0 by {
                assert(a.drop_last()[i] == a[i]);
            }
            assert forall|i: int| 0 <= i < b.len() - 1 implies !(
            #[trigger] b.drop_last()[i]).contains(sep) && b.drop_last()[i].len() > 0 by {
                assert(b.drop_last()[i] == b[i]);
            }
            law_joined_parts_can_be_told_apart(a.drop_last(), b.drop_last(), sep);
            assert(a =~= a.drop_last().push(x));
            assert(b =~= b.drop_last().push(y));
        }
    }
}

/// What joined parts end with.
proof fn lemma_last_part(parts: Seq<Seq<char>>, sep: char)
    requires
        parts.len() > 0,
        parts.last().len() > 0,
    ensures
        ({
            let text = joined(parts, seq![sep]);
            let last = parts.last();
            &&& text.len() >= last.len() > 0
            &&& text.skip(text.len() - last.len()) == last
            &&& forall|i: int|
                0 <= i < last.len() ==> text[text.len() - last.len() + i] == #[trigger] last[i]
            &&& parts.len() == 1 ==> text == last
            &&& parts.len() > 1 ==> text.len() > last.len() && text[text.len() - last.len() - 1]
                == sep && text.take(text.len() - last.len() - 1) == joined(
                parts.drop_last(),
                seq![sep],
            )
        }),
{
    let text = joined(parts, seq![sep]);
    let last = parts.last();
    if parts.len() > 1 {
        let front = joined(parts.drop_last(), seq![sep]);
        assert(text == front + seq![sep] + last);
        assert(text.take(text.len() - last.len() - 1) =~= front);
    }
    assert(text.skip(text.len() - last.len()) =~= last);
}

} // verus!
