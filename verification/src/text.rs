//! Text primitives shared by the resolvers: exact and case-insensitive
//! comparison, the dictionary order on names, and splitting at a separator.
//!
//! Every contract is stated over the character sequence of a string, so the
//! same predicates serve stack names, host tokens and secret paths.

use vstd::prelude::*;

verus! {

/// The code of `c` after mapping the letters `A`..`Z` onto `a`..`z`.
/// Every other character, ASCII or not, keeps its own code.
pub open spec fn ascii_fold(c: char) -> int {
    if 'A' <= c && c <= 'Z' {
        c as int + 32
    } else {
        c as int
    }
}

/// `a` and `b` spell the same text once ASCII letter case is ignored.
pub open spec fn eq_ignoring_ascii_case(a: Seq<char>, b: Seq<char>) -> bool {
    &&& a.len() == b.len()
    &&& forall|i: int| 0 <= i < a.len() ==> ascii_fold(#[trigger] a[i]) == ascii_fold(b[i])
}

/// `a` comes strictly before `b` in dictionary order: the two agree on some
/// prefix, after which either `a` ends while `b` goes on, or `a` continues
/// with the smaller character.
pub open spec fn precedes(a: Seq<char>, b: Seq<char>) -> bool {
    exists|k: int| #[trigger] decides_at(a, b, k)
}

/// Position `k` is where `a` falls before `b`: everything in front of `k` is
/// shared, and at `k` either `a` is exhausted or holds the smaller character.
pub open spec fn decides_at(a: Seq<char>, b: Seq<char>, k: int) -> bool {
    &&& 0 <= k <= a.len()
    &&& k < b.len()
    &&& a.take(k) == b.take(k)
    &&& (k == a.len() || a[k] < b[k])
}

/// How one name stands relative to another in dictionary order.
#[derive(Debug, Clone, Copy, PartialEq, Eq, Structural)]
pub enum NameOrder {
    Before,
    Same,
    After,
}

/// The pieces of `s` that lie between occurrences of `sep`, in order. A text
/// without separator is its own single piece; a separator at either end, or
/// two in a row, give an empty piece.
pub open spec fn split_segments(s: Seq<char>, sep: char) -> Seq<Seq<char>>
    decreases s.len(),
{
    if s.len() == 0 {
        seq![Seq::<char>::empty()]
    } else {
        let front = split_segments(s.drop_last(), sep);
        if s.last() == sep {
            front.push(Seq::<char>::empty())
        } else {
            front.drop_last().push(front.last().push(s.last()))
        }
    }
}

/// The pieces glued back together with `sep` between neighbours.
pub open spec fn join_segments(parts: Seq<Seq<char>>, sep: char) -> Seq<char>
    decreases parts.len(),
{
    if parts.len() == 0 {
        Seq::<char>::empty()
    } else if parts.len() == 1 {
        parts[0]
    } else {
        join_segments(parts.drop_last(), sep).push(sep) + parts.last()
    }
}

/// The character sequences held by a list of character vectors.
pub open spec fn segments_of(parts: Seq<Vec<char>>) -> Seq<Seq<char>> {
    Seq::new(parts.len(), |i: int| parts[i]@)
}

/// Splitting never yields an empty list, no piece holds the separator, and
/// joining the pieces gives the text back.
pub proof fn lemma_split_then_join(s: Seq<char>, sep: char)
    ensures
        split_segments(s, sep).len() >= 1,
        forall|i: int|
            0 <= i < split_segments(s, sep).len() ==> !(#[trigger] split_segments(s, sep)[i])
                .contains(sep),
        join_segments(split_segments(s, sep), sep) == s,
    decreases s.len(),
{
    if s.len() > 0 {
        let shorter = s.drop_last();
        lemma_split_then_join(shorter, sep);
        let front = split_segments(shorter, sep);
        let whole = split_segments(s, sep);
        if s.last() == sep {
            assert(whole.drop_last() == front);
            assert(join_segments(front, sep).push(sep) + Seq::<char>::empty() == s);
        } else {
            let grown = front.last().push(s.last());
            assert(whole == front.drop_last().push(grown));
            assert forall|i: int| 0 <= i < whole.len() implies !(#[trigger] whole[i]).contains(
                sep,
            ) by {
                if i == whole.len() - 1 {
                    assert(!front[i].contains(sep));
                    if grown.contains(sep) {
                        let j = choose|j: int| 0 <= j < grown.len() && grown[j] == sep;
                        assert(front[i][j] == sep);
                    }
                } else {
                    assert(whole[i] == front[i]);
                }
            }
            if front.len() == 1 {
                assert(grown == s);
            } else {
                assert(whole.drop_last() == front.drop_last());
                assert(join_segments(front.drop_last(), sep).push(sep) + grown == (
                join_segments(front.drop_last(), sep).push(sep) + front.last()).push(s.last()));
                assert(shorter.push(s.last()) == s);
            }
        }
    } else {
        assert(split_segments(s, sep)[0] == s);
    }
}

/// The split is the only way to cut a text at its separators: a non-empty
/// list of separator-free pieces that joins to `s` is the split of `s`.
pub proof fn lemma_split_unique(s: Seq<char>, sep: char, parts: Seq<Seq<char>>)
    requires
        parts.len() >= 1,
        forall|i: int| 0 <= i < parts.len() ==> !(#[trigger] parts[i]).contains(sep),
        join_segments(parts, sep) == s,
    ensures
        parts == split_segments(s, sep),
    decreases s.len(),
{
    let front = parts.drop_last();
    let tail = parts.last();
    if parts.len() == 1 {
        assert(tail == s);
    } else {
        assert(s == join_segments(front, sep).push(sep) + tail);
    }
    if tail.len() == 0 {
        assert(tail == Seq::<char>::empty());
        if parts.len() == 1 {
            assert(parts[0] == Seq::<char>::empty());
            assert(parts == seq![Seq::<char>::empty()]);
        } else {
            assert(s.drop_last() == join_segments(front, sep));
            assert forall|i: int| 0 <= i < front.len() implies !(#[trigger] front[i]).contains(
                sep,
            ) by {
                assert(front[i] == parts[i]);
            }
            lemma_split_unique(s.drop_last(), sep, front);
            assert(parts == front.push(tail));
        }
    } else {
        let last = tail.last();
        assert(tail.contains(last));
        let shorter = front.push(tail.drop_last());
        assert(shorter.drop_last() == front);
        assert(join_segments(shorter, sep) == s.drop_last()) by {
            if parts.len() > 1 {
                assert(join_segments(front, sep).push(sep) + tail.drop_last() == (join_segments(
                    front,
                    sep,
                ).push(sep) + tail).drop_last());
            }
        }
        assert forall|i: int| 0 <= i < shorter.len() implies !(#[trigger] shorter[i]).contains(
            sep,
        ) by {
            if i < front.len() {
                assert(shorter[i] == parts[i]);
            } else if shorter[i].contains(sep) {
                let j = choose|j: int| 0 <= j < shorter[i].len() && shorter[i][j] == sep;
                assert(tail[j] == sep);
            }
        }
        lemma_split_unique(s.drop_last(), sep, shorter);
        assert(tail.drop_last().push(last) == tail);
        assert(parts == shorter.drop_last().push(shorter.last().push(s.last())));
    }
}

/// Matching without regard to ASCII case is reflexive, symmetric and
/// transitive.
pub proof fn lemma_case_match_is_equivalence(a: Seq<char>, b: Seq<char>, c: Seq<char>)
    ensures
        eq_ignoring_ascii_case(a, a),
        eq_ignoring_ascii_case(a, b) ==> eq_ignoring_ascii_case(b, a),
        eq_ignoring_ascii_case(a, b) && eq_ignoring_ascii_case(b, c) ==> eq_ignoring_ascii_case(
            a,
            c,
        ),
{
    if eq_ignoring_ascii_case(a, b) {
        assert forall|i: int| 0 <= i < b.len() implies ascii_fold(#[trigger] b[i]) == ascii_fold(
            a[i],
        ) by {
            assert(ascii_fold(a[i]) == ascii_fold(b[i]));
        }
        if eq_ignoring_ascii_case(b, c) {
            assert forall|i: int| 0 <= i < a.len() implies ascii_fold(#[trigger] a[i])
                == ascii_fold(c[i]) by {
                assert(ascii_fold(b[i]) == ascii_fold(c[i]));
            }
        }
    }
}

/// Two lists of pieces match piece by piece without regard to ASCII case.
pub open spec fn segments_match(a: Seq<Seq<char>>, b: Seq<Seq<char>>) -> bool {
    &&& a.len() == b.len()
    &&& forall|i: int| 0 <= i < a.len() ==> eq_ignoring_ascii_case(#[trigger] a[i], b[i])
}

/// `c` is none of the letters `A`..`Z` and `a`..`z`.
pub open spec fn is_no_ascii_letter(c: char) -> bool {
    !('A' <= c && c <= 'Z') && !('a' <= c && c <= 'z')
}

/// Texts that differ only in ASCII letter case split into pieces that differ
/// only in ASCII letter case, provided the separator is not a letter itself.
pub proof fn lemma_split_respects_case(a: Seq<char>, b: Seq<char>, sep: char)
    requires
        eq_ignoring_ascii_case(a, b),
        is_no_ascii_letter(sep),
    ensures
        segments_match(split_segments(a, sep), split_segments(b, sep)),
    decreases a.len(),
{
    if a.len() > 0 {
        assert forall|i: int| 0 <= i < a.drop_last().len() implies ascii_fold(
            #[trigger] a.drop_last()[i],
        ) == ascii_fold(b.drop_last()[i]) by {
            assert(ascii_fold(a[i]) == ascii_fold(b[i]));
        }
        lemma_split_respects_case(a.drop_last(), b.drop_last(), sep);
        lemma_split_then_join(a.drop_last(), sep);
        lemma_split_then_join(b.drop_last(), sep);
        let left = split_segments(a.drop_last(), sep);
        let right = split_segments(b.drop_last(), sep);
        assert(ascii_fold(a[a.len() - 1]) == ascii_fold(b[a.len() - 1]));
        assert((a.last() == sep) == (b.last() == sep));
        if a.last() != sep {
            let last = left.len() - 1;
            assert(eq_ignoring_ascii_case(left[last], right[last]));
            let grown_left = left[last].push(a.last());
            let grown_right = right[last].push(b.last());
            assert forall|i: int| 0 <= i < grown_left.len() implies ascii_fold(
                #[trigger] grown_left[i],
            ) == ascii_fold(grown_right[i]) by {
                if i < left[last].len() {
                    assert(ascii_fold(left[last][i]) == ascii_fold(right[last][i]));
                }
            }
            assert forall|i: int| 0 <= i < split_segments(a, sep).len() implies eq_ignoring_ascii_case(
                #[trigger] split_segments(a, sep)[i],
                split_segments(b, sep)[i],
            ) by {
                if i < last {
                    assert(eq_ignoring_ascii_case(left[i], right[i]));
                }
            }
        } else {
            assert forall|i: int| 0 <= i < split_segments(a, sep).len() implies eq_ignoring_ascii_case(
                #[trigger] split_segments(a, sep)[i],
                split_segments(b, sep)[i],
            ) by {
                if i < left.len() {
                    assert(eq_ignoring_ascii_case(left[i], right[i]));
                }
            }
        }
    }
}

/// Dictionary order never places a text before itself.
pub proof fn lemma_precedes_irreflexive(a: Seq<char>)
    ensures
        !precedes(a, a),
{
}

/// Dictionary order is one-way: of two texts at most one precedes the other.
pub proof fn lemma_precedes_asymmetric(a: Seq<char>, b: Seq<char>)
    requires
        precedes(a, b),
    ensures
        !precedes(b, a),
{
    let k = choose|k: int| decides_at(a, b, k);
    if precedes(b, a) {
        let m = choose|m: int| decides_at(b, a, m);
        if m < k {
            assert(a.take(k)[m] == b.take(k)[m]);
        } else if k < m {
            assert(b.take(m)[k] == a.take(m)[k]);
        }
    }
}

/// Dictionary order is transitive.
pub proof fn lemma_precedes_transitive(a: Seq<char>, b: Seq<char>, c: Seq<char>)
    requires
        precedes(a, b),
        precedes(b, c),
    ensures
        precedes(a, c),
{
    let k = choose|k: int| decides_at(a, b, k);
    let m = choose|m: int| decides_at(b, c, m);
    let j = if k <= m { k } else { m };
    assert(a.take(j) == c.take(j)) by {
        assert forall|i: int| 0 <= i < j implies a.take(j)[i] == c.take(j)[i] by {
            assert(a.take(k)[i] == b.take(k)[i]);
            assert(b.take(m)[i] == c.take(m)[i]);
        }
    }
    if k < m {
        assert(b.take(m)[k] == c.take(m)[k]);
    } else if m < k {
        assert(a.take(k)[m] == b.take(k)[m]);
    }
    assert(decides_at(a, c, j));
}

/// Two different texts are always ordered one way or the other.
pub proof fn lemma_precedes_total(a: Seq<char>, b: Seq<char>)
    ensures
        a == b || precedes(a, b) || precedes(b, a),
{
    assert(a.take(0) == b.take(0));
    lemma_first_difference(a, b, 0);
}

/// Searching from an agreed prefix of length `k` finds where the texts part.
proof fn lemma_first_difference(a: Seq<char>, b: Seq<char>, k: int)
    requires
        0 <= k <= a.len(),
        k <= b.len(),
        a.take(k) == b.take(k),
    ensures
        a == b || precedes(a, b) || precedes(b, a),
    decreases a.len() - k,
{
    if k == a.len() {
        if k == b.len() {
            assert(a == a.take(k));
            assert(b == b.take(k));
        } else {
            assert(decides_at(a, b, k));
        }
    } else if k == b.len() {
        assert(decides_at(b, a, k));
    } else if a[k] < b[k] {
        assert(decides_at(a, b, k));
    } else if b[k] < a[k] {
        assert(decides_at(b, a, k));
    } else {
        assert(a.take(k + 1) == a.take(k).push(a[k]));
        assert(b.take(k + 1) == b.take(k).push(b[k]));
        lemma_first_difference(a, b, k + 1);
    }
}

/// The characters of `s`, one vector element each.
pub fn chars_of(s: &str) -> (chars: Vec<char>)
    ensures
        chars@ == s@,
{
    let mut chars: Vec<char> = Vec::new();
    for c in it: s.chars()
        invariant
            it.seq() == s@,
            chars@ == s@.take(it.index() as int),
    {
        chars.push(c);
    }
    chars
}

/// The code of `c` with ASCII upper-case letters lowered.
fn fold_code(c: char) -> (code: u32)
    ensures
        code as int == ascii_fold(c),
{
    let code: u32 = c as u32;
    if 65 <= code && code <= 90 {
        code + 32
    } else {
        code
    }
}

/// Whether two character vectors hold the same text.
pub fn chars_equal(a: &Vec<char>, b: &Vec<char>) -> (same: bool)
    ensures
        same == (a@ == b@),
{
    if a.len() != b.len() {
        return false;
    }
    let mut i: usize = 0;
    while i < a.len()
        invariant
            a.len() == b.len(),
            i <= a.len(),
            a@.take(i as int) == b@.take(i as int),
        decreases a.len() - i,
    {
        if a[i] != b[i] {
            return false;
        }
        assert(a@.take(i + 1) == a@.take(i as int).push(a@[i as int]));
        assert(b@.take(i + 1) == b@.take(i as int).push(b@[i as int]));
        i += 1;
    }
    assert(a@ == a@.take(i as int));
    assert(b@ == b@.take(i as int));
    true
}

/// Whether two character vectors hold the same text up to ASCII letter case.
pub fn chars_match_ignoring_case(a: &Vec<char>, b: &Vec<char>) -> (same: bool)
    ensures
        same == eq_ignoring_ascii_case(a@, b@),
{
    if a.len() != b.len() {
        return false;
    }
    let mut i: usize = 0;
    while i < a.len()
        invariant
            a.len() == b.len(),
            i <= a.len(),
            forall|j: int| 0 <= j < i ==> ascii_fold(#[trigger] a@[j]) == ascii_fold(b@[j]),
        decreases a.len() - i,
    {
        if fold_code(a[i]) != fold_code(b[i]) {
            return false;
        }
        i += 1;
    }
    true
}

/// Whether `a` and `b` are the same text, character for character.
pub fn same_text(a: &str, b: &str) -> (same: bool)
    ensures
        same == (a@ == b@),
{
    let left = chars_of(a);
    let right = chars_of(b);
    chars_equal(&left, &right)
}

/// Whether `a` and `b` are the same text up to ASCII letter case: `Vault`
/// matches `vault` and `VAULT`, while letters outside ASCII must agree exactly.
pub fn eq_ignore_ascii_case(a: &str, b: &str) -> (same: bool)
    ensures
        same == eq_ignoring_ascii_case(a@, b@),
{
    let left = chars_of(a);
    let right = chars_of(b);
    chars_match_ignoring_case(&left, &right)
}

/// Where `a` stands relative to `b` in dictionary order.
pub fn compare_names(a: &str, b: &str) -> (order: NameOrder)
    ensures
        order == NameOrder::Before <==> precedes(a@, b@),
        order == NameOrder::Same <==> a@ == b@,
        order == NameOrder::After <==> precedes(b@, a@),
{
    let left = chars_of(a);
    let right = chars_of(b);
    let mut i: usize = 0;
    while i < left.len() && i < right.len()
        invariant
            left@ == a@,
            right@ == b@,
            i <= left.len(),
            i <= right.len(),
            left@.take(i as int) == right@.take(i as int),
        decreases left.len() - i,
    {
        if left[i] < right[i] {
            proof {
                assert(decides_at(left@, right@, i as int));
                lemma_precedes_asymmetric(left@, right@);
                lemma_precedes_irreflexive(left@);
            }
            return NameOrder::Before;
        }
        if right[i] < left[i] {
            proof {
                assert(decides_at(right@, left@, i as int));
                lemma_precedes_asymmetric(right@, left@);
                lemma_precedes_irreflexive(left@);
            }
            return NameOrder::After;
        }
        assert(left@.take(i + 1) == left@.take(i as int).push(left@[i as int]));
        assert(right@.take(i + 1) == right@.take(i as int).push(right@[i as int]));
        i += 1;
    }
    if i < right.len() {
        proof {
            assert(decides_at(left@, right@, i as int));
            lemma_precedes_asymmetric(left@, right@);
            lemma_precedes_irreflexive(left@);
        }
        NameOrder::Before
    } else if i < left.len() {
        proof {
            assert(decides_at(right@, left@, i as int));
            lemma_precedes_asymmetric(right@, left@);
            lemma_precedes_irreflexive(left@);
        }
        NameOrder::After
    } else {
        proof {
            assert(left@ == left@.take(i as int));
            assert(right@ == right@.take(i as int));
            lemma_precedes_irreflexive(left@);
        }
        NameOrder::Same
    }
}

/// Splits `text` at every occurrence of `sep`.
pub fn split_at_separator(text: &str, sep: char) -> (parts: Vec<Vec<char>>)
    ensures
        segments_of(parts@) == split_segments(text@, sep),
        parts.len() >= 1,
{
    let mut parts: Vec<Vec<char>> = Vec::new();
    let mut current: Vec<char> = Vec::new();
    for c in it: text.chars()
        invariant
            it.seq() == text@,
            segments_of(parts@).push(current@) == split_segments(
                text@.take(it.index() as int),
                sep,
            ),
    {
        let ghost seen = text@.take(it.index() as int);
        let ghost grown = text@.take(it.index() + 1);
        let ghost before = segments_of(parts@);
        proof {
            assert(grown.drop_last() == seen);
            assert(grown.last() == c);
        }
        if c == sep {
            parts.push(current);
            current = Vec::new();
            proof {
                assert(segments_of(parts@) == split_segments(seen, sep));
            }
        } else {
            proof {
                assert(before.push(current@).drop_last() == before);
            }
            current.push(c);
        }
    }
    proof {
        assert(text@.take(text@.len() as int) == text@);
    }
    parts.push(current);
    parts
}

} // verus!
