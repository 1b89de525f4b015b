//! Text as sequences of characters: searching, ordering and formatting.

use vstd::prelude::*;

verus! {

/// `needle` stands in `hay` at position `at`.
pub open spec fn occurs_at(hay: Seq<char>, needle: Seq<char>, at: int) -> bool {
    &&& 0 <= at
    &&& at + needle.len() <= hay.len()
    &&& hay.subrange(at, at + needle.len()) == needle
}

/// `needle` stands somewhere in `hay`. The empty text stands in every text.
pub open spec fn contains_text(hay: Seq<char>, needle: Seq<char>) -> bool {
    exists|at: int| occurs_at(hay, needle, at)
}

/// `at` is the last position at which `needle` stands in `hay`.
pub open spec fn is_last_occurrence(hay: Seq<char>, needle: Seq<char>, at: int) -> bool {
    &&& occurs_at(hay, needle, at)
    &&& forall|later: int| at < later ==> !occurs_at(hay, needle, later)
}

/// What follows the last occurrence of `marker` in `text`; all of `text`
/// where `marker` does not occur.
pub open spec fn after_last(text: Seq<char>, marker: Seq<char>) -> Seq<char> {
    if contains_text(text, marker) {
        let at = choose|at: int| is_last_occurrence(text, marker, at);
        text.subrange(at + marker.len(), text.len() as int)
    } else {
        text
    }
}

/// Strict lexicographic order by character code: a proper prefix comes first,
/// otherwise the first differing character decides.
pub open spec fn precedes(a: Seq<char>, b: Seq<char>) -> bool
    decreases a.len(),
{
    if b.len() == 0 {
        false
    } else if a.len() == 0 {
        true
    } else if a[0] != b[0] {
        (a[0] as int) < (b[0] as int)
    } else {
        precedes(a.drop_first(), b.drop_first())
    }
}

/// `x` is a member of `texts` that no other member precedes.
pub open spec fn is_least(texts: Set<Seq<char>>, x: Seq<char>) -> bool {
    &&& texts.contains(x)
    &&& forall|y: Seq<char>| texts.contains(y) ==> !precedes(y, x)
}

/// The member of `texts` that comes first in lexicographic order.
pub open spec fn least_of(texts: Set<Seq<char>>) -> Seq<char> {
    choose|x: Seq<char>| is_least(texts, x)
}

/// The sixteen digits of lower-case hexadecimal notation, by value.
pub open spec fn hex_digits() -> Seq<char> {
    seq!['0', '1', '2', '3', '4', '5', '6', '7', '8', '9', 'a', 'b', 'c', 'd', 'e', 'f']
}

/// `n` in lower-case hexadecimal notation, without leading zeros.
pub open spec fn lower_hex(n: nat) -> Seq<char>
    decreases n,
{
    if n < 16 {
        seq![hex_digits()[n as int]]
    } else {
        lower_hex(n / 16).push(hex_digits()[(n % 16) as int])
    }
}

/// No text precedes itself.
pub proof fn lemma_precedes_irreflexive(a: Seq<char>)
    ensures
        !precedes(a, a),
    decreases a.len(),
{
    if a.len() > 0 {
        lemma_precedes_irreflexive(a.drop_first());
    }
}

/// The order is transitive.
pub proof fn lemma_precedes_transitive(a: Seq<char>, b: Seq<char>, c: Seq<char>)
    requires
        precedes(a, b),
        precedes(b, c),
    ensures
        precedes(a, c),
    decreases a.len(),
{
    if a.len() > 0 && a[0] == b[0] && b[0] == c[0] {
        lemma_precedes_transitive(a.drop_first(), b.drop_first(), c.drop_first());
    }
}

/// Of two different texts one precedes the other.
pub proof fn lemma_precedes_total(a: Seq<char>, b: Seq<char>)
    ensures
        precedes(a, b) || a == b || precedes(b, a),
    decreases a.len(),
{
    if a.len() > 0 && b.len() > 0 && a[0] == b[0] {
        lemma_precedes_total(a.drop_first(), b.drop_first());
        if a.drop_first() == b.drop_first() {
            assert forall|i: int| 0 <= i < a.len() implies a[i] == b[i] by {
                if i > 0 {
                    assert(a[i] == a.drop_first()[i - 1]);
                    assert(b[i] == b.drop_first()[i - 1]);
                }
            }
            assert(a.len() == a.drop_first().len() + 1);
            assert(b.len() == b.drop_first().len() + 1);
            assert(a =~= b);
        }
    } else if a.len() == 0 && b.len() == 0 {
        assert(a =~= b);
    }
}

/// A set has at most one least member.
pub proof fn lemma_least_unique(texts: Set<Seq<char>>, x: Seq<char>, y: Seq<char>)
    requires
        is_least(texts, x),
        is_least(texts, y),
    ensures
        x == y,
{
    lemma_precedes_total(x, y);
}

/// A least member, once found, is the one that `least_of` names.
pub proof fn lemma_least_of(texts: Set<Seq<char>>, x: Seq<char>)
    requires
        is_least(texts, x),
    ensures
        least_of(texts) == x,
{
    lemma_least_unique(texts, x, least_of(texts));
}

/// A text has at most one last occurrence of a marker.
pub proof fn lemma_last_occurrence_unique(hay: Seq<char>, needle: Seq<char>, a: int, b: int)
    requires
        is_last_occurrence(hay, needle, a),
        is_last_occurrence(hay, needle, b),
    ensures
        a == b,
{
}

/// Where the last occurrence is known, `after_last` is what follows it.
pub proof fn lemma_after_last_at(text: Seq<char>, marker: Seq<char>, at: int)
    requires
        is_last_occurrence(text, marker, at),
    ensures
        after_last(text, marker) == text.subrange(at + marker.len(), text.len() as int),
{
    let chosen = choose|at: int| is_last_occurrence(text, marker, at);
    lemma_last_occurrence_unique(text, marker, at, chosen);
}

/// The characters of `s`, in order.
pub fn chars_of(s: &str) -> (v: Vec<char>)
    ensures
        v@ == s@,
{
    broadcast use vstd::string::group_string_axioms;

    let mut v: Vec<char> = Vec::new();
    for c in it: s.chars()
        invariant
            it.seq() == s@,
            v@ == s@.take(it.index()),
    {
        v.push(c);
    }
    v
}

/// Whether `needle` stands in `hay` at position `at`.
pub fn matches_at(hay: &Vec<char>, needle: &Vec<char>, at: usize) -> (r: bool)
    requires
        at + needle.len() <= hay.len(),
    ensures
        r == occurs_at(hay@, needle@, at as int),
{
    let n: usize = needle.len();
    let mut j: usize = 0;
    while j < n
        invariant
            n == needle.len(),
            at + n <= hay.len(),
            j <= n,
            forall|k: int| 0 <= k < j ==> hay@[at + k] == needle@[k],
        decreases n - j,
    {
        if hay[at + j] != needle[j] {
            assert(hay@.subrange(at as int, at + n)[j as int] != needle@[j as int]);
            return false;
        }
        j += 1;
    }
    assert(hay@.subrange(at as int, at + n) =~= needle@);
    true
}

/// Whether `needle` stands somewhere in `hay`.
pub fn contains(hay: &Vec<char>, needle: &Vec<char>) -> (r: bool)
    ensures
        r == contains_text(hay@, needle@),
{
    if needle.len() > hay.len() {
        return false;
    }
    let last: usize = hay.len() - needle.len();
    let mut at: usize = 0;
    loop
        invariant
            last == hay.len() - needle.len(),
            at <= last,
            forall|k: int| 0 <= k < at ==> !occurs_at(hay@, needle@, k),
        decreases last - at,
    {
        if matches_at(hay, needle, at) {
            return true;
        }
        if at == last {
            return false;
        }
        at += 1;
    }
}

/// The last position at which `needle` stands in `hay`, if there is one.
pub fn last_occurrence(hay: &Vec<char>, needle: &Vec<char>) -> (r: Option<usize>)
    ensures
        match r {
            Some(at) => is_last_occurrence(hay@, needle@, at as int),
            None => !contains_text(hay@, needle@),
        },
{
    if needle.len() > hay.len() {
        return None;
    }
    let mut at: usize = hay.len() - needle.len();
    loop
        invariant
            at + needle.len() <= hay.len(),
            forall|k: int| at < k ==> !occurs_at(hay@, needle@, k),
        decreases at,
    {
        if matches_at(hay, needle, at) {
            return Some(at);
        }
        if at == 0 {
            return None;
        }
        at -= 1;
    }
}

/// What follows the last occurrence of `marker` in `text`, or all of `text`
/// where `marker` does not occur.
pub fn text_after_last(text: &str, marker: &Vec<char>) -> (r: String)
    ensures
        r@ == after_last(text@, marker@),
{
    let chars = chars_of(text);
    let found = last_occurrence(&chars, marker);
    match found {
        Some(at) => {
            proof {
                assert(occurs_at(chars@, marker@, at as int));
                assert(at + marker.len() <= chars.len());
                lemma_after_last_at(text@, marker@, at as int);
            }
            let start: usize = at + marker.len();
            text.substring_char(start, chars.len()).to_owned()
        },
        None => text.to_owned(),
    }
}

/// Whether two texts hold the same characters.
pub fn text_eq(a: &str, b: &str) -> (r: bool)
    ensures
        r == (a@ == b@),
{
    let x = chars_of(a);
    let y = chars_of(b);
    if x.len() != y.len() {
        return false;
    }
    let mut i: usize = 0;
    while i < x.len()
        invariant
            x@ == a@,
            y@ == b@,
            x.len() == y.len(),
            i <= x.len(),
            forall|k: int| 0 <= k < i ==> x@[k] == y@[k],
        decreases x.len() - i,
    {
        if x[i] != y[i] {
            assert(a@[i as int] != b@[i as int]);
            return false;
        }
        i += 1;
    }
    assert(x@ =~= y@);
    true
}

/// Whether `a` comes before `b` in lexicographic order.
pub fn text_precedes(a: &str, b: &str) -> (r: bool)
    ensures
        r == precedes(a@, b@),
{
    let x = chars_of(a);
    let y = chars_of(b);
    let mut i: usize = 0;
    assert(x@.skip(0) =~= x@ && y@.skip(0) =~= y@);
    while i < x.len() && i < y.len()
        invariant
            x@ == a@,
            y@ == b@,
            i <= x.len(),
            i <= y.len(),
            precedes(x@, y@) == precedes(x@.skip(i as int), y@.skip(i as int)),
        decreases x.len() - i,
    {
        proof {
            assert(x@.skip(i as int).drop_first() =~= x@.skip(i + 1));
            assert(y@.skip(i as int).drop_first() =~= y@.skip(i + 1));
            assert(x@.skip(i as int)[0] == x@[i as int]);
            assert(y@.skip(i as int)[0] == y@[i as int]);
        }
        if x[i] != y[i] {
            return x[i] < y[i];
        }
        i += 1;
    }
    i < y.len()
}

/// The text of one hexadecimal digit.
fn digit_text(d: u64) -> (r: &'static str)
    requires
        d < 16,
    ensures
        r@ == seq![hex_digits()[d as int]],
{
    proof {
        reveal_strlit("0");
        reveal_strlit("1");
        reveal_strlit("2");
        reveal_strlit("3");
        reveal_strlit("4");
        reveal_strlit("5");
        reveal_strlit("6");
        reveal_strlit("7");
        reveal_strlit("8");
        reveal_strlit("9");
        reveal_strlit("a");
        reveal_strlit("b");
        reveal_strlit("c");
        reveal_strlit("d");
        reveal_strlit("e");
        reveal_strlit("f");
    }
    let r = if d == 0 {
        "0"
    } else if d == 1 {
        "1"
    } else if d == 2 {
        "2"
    } else if d == 3 {
        "3"
    } else if d == 4 {
        "4"
    } else if d == 5 {
        "5"
    } else if d == 6 {
        "6"
    } else if d == 7 {
        "7"
    } else if d == 8 {
        "8"
    } else if d == 9 {
        "9"
    } else if d == 10 {
        "a"
    } else if d == 11 {
        "b"
    } else if d == 12 {
        "c"
    } else if d == 13 {
        "d"
    } else if d == 14 {
        "e"
    } else {
        "f"
    };
    assert(r@ =~= seq![hex_digits()[d as int]]);
    r
}

/// Appends `n` in lower-case hexadecimal notation to `out`.
pub fn push_lower_hex(n: u64, out: &mut String)
    ensures
        final(out)@ == old(out)@ + lower_hex(n as nat),
    decreases n,
{
    if n >= 16 {
        push_lower_hex(n / 16, out);
    }
    out.append(digit_text(n % 16));
    assert(final(out)@ =~= old(out)@ + lower_hex(n as nat));
}

} // verus!
