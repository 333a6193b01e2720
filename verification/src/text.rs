//! Text helpers: decimal numbers, substitution, splitting and ordering.

use vstd::prelude::*;

verus! {

// ---------------------------------------------------------------------
// Equality
// ---------------------------------------------------------------------

/// Whether two texts hold the same characters.
pub fn same_text(a: &str, b: &str) -> (r: bool)
    ensures
        r == (a@ == b@),
{
    a.to_owned() == b.to_owned()
}

/// The characters of a text, in order.
pub fn chars_of(s: &str) -> (r: Vec<char>)
    ensures
        r@ == s@,
{
    let mut r: Vec<char> = Vec::new();
    for c in it: s.chars()
        invariant
            r@ == s@.take(it.index() as int),
            it.seq() == s@,
    {
        r.push(c);
        assert(s@.take(it.index() as int + 1) =~= s@.take(it.index() as int).push(s@[it.index() as int]));
    }
    assert(s@.take(s@.len() as int) =~= s@);
    r
}

// ---------------------------------------------------------------------
// Decimal numbers
// ---------------------------------------------------------------------

/// The character of one decimal digit.
pub open spec fn digit_char(d: nat) -> char {
    (48 + d) as char
}

/// Decimal notation without leading zeros.
pub open spec fn digits(n: nat) -> Seq<char>
    decreases n,
{
    if n < 10 {
        seq![digit_char(n)]
    } else {
        digits(n / 10).push(digit_char(n % 10))
    }
}

/// Decimal notation of an integer, with a leading minus below zero.
pub open spec fn signed_digits(n: int) -> Seq<char> {
    if n < 0 {
        seq!['-'] + digits((-n) as nat)
    } else {
        digits(n as nat)
    }
}

fn digit_text(d: u64) -> (r: &'static str)
    requires
        d < 10,
    ensures
        r@ == seq![digit_char(d as nat)],
{
    proof {
        reveal_strlit("0");
        reveal_strlit("1");
        reveal_strlit("2");
        reveal_strlit("3");
        reveal_strlit("4");
        reveal_strlit("5");
        reveal_strlit("6");
        reveal_strlit("7");
        reveal_strlit("8");
        reveal_strlit("9");
    }
    if d == 0 {
        "0"
    } else if d == 1 {
        "1"
    } else if d == 2 {
        "2"
    } else if d == 3 {
        "3"
    } else if d == 4 {
        "4"
    } else if d == 5 {
        "5"
    } else if d == 6 {
        "6"
    } else if d == 7 {
        "7"
    } else if d == 8 {
        "8"
    } else {
        "9"
    }
}

/// Write `n` in decimal.
pub fn decimal(n: u64) -> (r: String)
    ensures
        r@ == digits(n as nat),
    decreases n,
{
    if n < 10 {
        digit_text(n).to_owned()
    } else {
        let mut r = decimal(n / 10);
        r.append(digit_text(n % 10));
        assert(r@ =~= digits(n as nat));
        r
    }
}

/// Write `n` in decimal, with a leading minus below zero.
pub fn signed_decimal(n: i64) -> (r: String)
    ensures
        r@ == signed_digits(n as int),
{
    if n < 0 {
        let wide: i128 = -(n as i128);
        let mut r = "-".to_owned();
        r.append(decimal(wide as u64).as_str());
        proof {
            reveal_strlit("-");
        }
        assert("-"@ =~= seq!['-']);
        r
    } else {
        decimal(n as u64)
    }
}

/// Whether a character is one of `0` to `9`.
pub open spec fn is_digit(c: char) -> bool {
    '0' <= c <= '9'
}

/// The number that a run of decimal digits denotes.
pub open spec fn number_of(s: Seq<char>) -> nat
    decreases s.len(),
{
    if s.len() == 0 {
        0
    } else {
        number_of(s.drop_last()) * 10 + (s.last() as nat - 48) as nat
    }
}

/// The digits of an unsigned number, without its optional leading plus.
pub open spec fn without_plus(s: Seq<char>) -> Seq<char> {
    if s.len() > 0 && s[0] == '+' {
        s.skip(1)
    } else {
        s
    }
}

/// What an unsigned number of at most `limit` reads as: one or more digits
/// after an optional plus, and nothing else.
pub open spec fn unsigned_value(s: Seq<char>, limit: nat) -> Option<nat> {
    let d = without_plus(s);
    if d.len() > 0 && (forall|i: int| 0 <= i < d.len() ==> is_digit(#[trigger] d[i])) && number_of(d)
        <= limit {
        Some(number_of(d))
    } else {
        None
    }
}

proof fn lemma_number_of_grows(s: Seq<char>, i: int)
    requires
        0 <= i <= s.len(),
        forall|k: int| 0 <= k < s.len() ==> is_digit(#[trigger] s[k]),
    ensures
        number_of(s.take(i)) <= number_of(s),
    decreases s.len(),
{
    if i == s.len() {
        assert(s.take(i) =~= s);
    } else {
        lemma_number_of_grows(s.drop_last(), i);
        assert(s.drop_last().take(i) =~= s.take(i));
    }
}

/// Read an unsigned number of at most `limit`.
pub fn parse_unsigned(s: &str, limit: u64) -> (r: Option<u64>)
    ensures
        match r {
            Some(n) => unsigned_value(s@, limit as nat) == Some(n as nat),
            None => unsigned_value(s@, limit as nat) is None,
        },
{
    let chars = chars_of(s);
    let start: usize = if chars.len() > 0 && chars[0] == '+' {
        1
    } else {
        0
    };
    let ghost d = without_plus(s@);
    assert(d =~= s@.skip(start as int));
    if start >= chars.len() {
        return None;
    }
    let mut value: u64 = 0;
    let mut i: usize = start;
    while i < chars.len()
        invariant
            start <= i <= chars@.len(),
            chars@ == s@,
            d == s@.skip(start as int),
            d == without_plus(s@),
            start < chars@.len(),
            value as nat == number_of(d.take(i - start)),
            value <= limit,
            forall|k: int| 0 <= k < i - start ==> is_digit(#[trigger] d[k]),
        decreases chars@.len() - i,
    {
        let c = chars[i];
        assert(c == d[i - start]);
        if c < '0' || c > '9' {
            assert(!is_digit(d[i - start]));
            return None;
        }
        let digit: u64 = (c as u64) - 48;
        let next: u128 = (value as u128) * 10 + (digit as u128);
        assert(d.take(i - start + 1).drop_last() =~= d.take(i - start));
        assert(next == number_of(d.take(i - start + 1)));
        if next > limit as u128 {
            proof {
                if forall|k: int| 0 <= k < d.len() ==> is_digit(#[trigger] d[k]) {
                    lemma_number_of_grows(d, i - start + 1);
                }
            }
            return None;
        }
        value = next as u64;
        i = i + 1;
    }
    assert(d.take(i - start) =~= d);
    Some(value)
}

// ---------------------------------------------------------------------
// Substitution
// ---------------------------------------------------------------------

/// `s` with every occurrence of `pattern` replaced, leftmost first and
/// without overlap.
pub open spec fn replaced(s: Seq<char>, pattern: Seq<char>, with: Seq<char>) -> Seq<char>
    decreases s.len(),
{
    if pattern.len() == 0 || s.len() < pattern.len() {
        s
    } else if s.take(pattern.len() as int) == pattern {
        with + replaced(s.skip(pattern.len() as int), pattern, with)
    } else {
        seq![s[0]] + replaced(s.skip(1), pattern, with)
    }
}

/// Whether `pattern` occurs somewhere in `s`.
pub open spec fn occurs(s: Seq<char>, pattern: Seq<char>) -> bool {
    exists|i: int|
        0 <= i <= s.len() - pattern.len() && #[trigger] s.subrange(i, i + pattern.len()) == pattern
}

/// Whether `pattern` stands in `s` at position `at`.
fn matches_at(s: &Vec<char>, at: usize, pattern: &Vec<char>) -> (r: bool)
    requires
        at <= s@.len(),
    ensures
        r == (at + pattern@.len() <= s@.len() && s@.subrange(at as int, at + pattern@.len())
            == pattern@),
{
    if pattern.len() > s.len() - at {
        return false;
    }
    let mut k: usize = 0;
    while k < pattern.len()
        invariant
            k <= pattern@.len(),
            at + pattern.len() <= s.len(),
            forall|j: int| 0 <= j < k ==> s@[at + j] == #[trigger] pattern@[j],
        decreases pattern@.len() - k,
    {
        if s[at + k] != pattern[k] {
            assert(s@.subrange(at as int, at + pattern@.len())[k as int] != pattern@[k as int]);
            return false;
        }
        k = k + 1;
    }
    assert(s@.subrange(at as int, at + pattern@.len()) =~= pattern@);
    true
}

/// Whether `pattern` occurs somewhere in `s`.
pub fn contains_text(s: &str, pattern: &str) -> (r: bool)
    ensures
        r == occurs(s@, pattern@),
{
    let cs = chars_of(s);
    let ps = chars_of(pattern);
    let mut i: usize = 0;
    while i < cs.len()
        invariant
            i <= cs@.len(),
            cs@ == s@,
            ps@ == pattern@,
            forall|k: int|
                0 <= k < i && k <= s@.len() - pattern@.len() ==> #[trigger] s@.subrange(
                    k,
                    k + pattern@.len(),
                ) != pattern@,
        decreases cs@.len() - i,
    {
        if matches_at(&cs, i, &ps) {
            return true;
        }
        i = i + 1;
    }
    if matches_at(&cs, i, &ps) {
        return true;
    }
    false
}

/// Replace every occurrence of `pattern`, leftmost first.
pub fn replace_text(s: &str, pattern: &str, with: &str) -> (r: String)
    requires
        pattern@.len() > 0,
    ensures
        r@ == replaced(s@, pattern@, with@),
{
    let cs = chars_of(s);
    let ps = chars_of(pattern);
    let mut out = String::new();
    let mut i: usize = 0;
    assert(s@.skip(0) =~= s@);
    assert(out@ + replaced(s@.skip(0), pattern@, with@) =~= replaced(s@, pattern@, with@));
    while i < cs.len()
        invariant
            i <= cs@.len(),
            cs@ == s@,
            ps@ == pattern@,
            pattern@.len() > 0,
            out@ + replaced(s@.skip(i as int), pattern@, with@) == replaced(s@, pattern@, with@),
        decreases cs@.len() - i,
    {
        let ghost rest = s@.skip(i as int);
        let ghost before = out@;
        if matches_at(&cs, i, &ps) {
            assert(rest.take(pattern@.len() as int) =~= s@.subrange(
                i as int,
                i + pattern@.len(),
            ));
            out.append(with);
            i = i + ps.len();
            assert(rest.skip(pattern@.len() as int) =~= s@.skip(i as int));
            assert(before + (with@ + replaced(s@.skip(i as int), pattern@, with@)) =~= out@
                + replaced(s@.skip(i as int), pattern@, with@));
        } else {
            assert(rest.len() >= pattern@.len() ==> rest.take(pattern@.len() as int)
                =~= s@.subrange(i as int, i + pattern@.len()));
            out.append(s.substring_char(i, i + 1));
            assert(rest.skip(1) =~= s@.skip(i + 1));
            assert(s@.subrange(i as int, i + 1) =~= seq![rest[0]]);
            assert(seq![rest[0]] + rest.skip(1) =~= rest);
            i = i + 1;
            assert(before + (seq![rest[0]] + replaced(s@.skip(i as int), pattern@, with@))
                =~= out@ + replaced(s@.skip(i as int), pattern@, with@));
        }
    }
    assert(s@.skip(i as int).len() == 0);
    assert(out@ + s@.skip(i as int) =~= out@);
    out
}

/// Substitution leaves a text without the pattern as it is.
pub proof fn lemma_replaced_without_pattern(s: Seq<char>, pattern: Seq<char>, with: Seq<char>)
    requires
        !occurs(s, pattern),
    ensures
        replaced(s, pattern, with) == s,
    decreases s.len(),
{
    if pattern.len() == 0 || s.len() < pattern.len() {
    } else {
        assert(s.take(pattern.len() as int) =~= s.subrange(0, 0 + pattern.len() as int));
        assert forall|i: int| 0 <= i <= s.skip(1).len() - pattern.len() implies #[trigger] s.skip(
            1,
        ).subrange(i, i + pattern.len()) != pattern by {
            assert(s.skip(1).subrange(i, i + pattern.len()) =~= s.subrange(
                i + 1,
                (i + 1) + pattern.len(),
            ));
        }
        lemma_replaced_without_pattern(s.skip(1), pattern, with);
        assert(seq![s[0]] + s.skip(1) =~= s);
    }
}

/// Substitution passes over a prefix in which the pattern cannot begin.
pub proof fn lemma_replaced_after_prefix(
    prefix: Seq<char>,
    s: Seq<char>,
    pattern: Seq<char>,
    with: Seq<char>,
)
    requires
        pattern.len() > 0,
        forall|i: int| 0 <= i < prefix.len() ==> #[trigger] prefix[i] != pattern[0],
    ensures
        replaced(prefix + s, pattern, with) == prefix + replaced(s, pattern, with),
    decreases prefix.len(),
{
    let all = prefix + s;
    if prefix.len() == 0 {
        assert(all =~= s);
        assert(prefix + replaced(s, pattern, with) =~= replaced(s, pattern, with));
    } else {
        let rest = prefix.skip(1);
        assert forall|i: int| 0 <= i < rest.len() implies #[trigger] rest[i] != pattern[0] by {
            assert(prefix[i + 1] != pattern[0]);
        }
        lemma_replaced_after_prefix(rest, s, pattern, with);
        assert(all.skip(1) =~= rest + s);
        assert(prefix[0] != pattern[0]);
        assert(seq![all[0]] + (rest + replaced(s, pattern, with)) =~= prefix + replaced(
            s,
            pattern,
            with,
        ));
        if all.len() >= pattern.len() {
            assert(all.take(pattern.len() as int)[0] != pattern[0]);
        } else {
            assert(s.len() < pattern.len());
        }
    }
}

// ---------------------------------------------------------------------
// Splitting
// ---------------------------------------------------------------------

/// Position of the first separator, or the length where there is none.
pub open spec fn first_index(s: Seq<char>, sep: char) -> nat
    decreases s.len(),
{
    if s.len() == 0 || s[0] == sep {
        0
    } else {
        1 + first_index(s.skip(1), sep)
    }
}

/// The pieces of `s` between separators: one more than there are separators.
pub open spec fn pieces(s: Seq<char>, sep: char) -> Seq<Seq<char>>
    decreases s.len(),
{
    let i = first_index(s, sep) as int;
    if i >= s.len() {
        seq![s]
    } else {
        seq![s.take(i)] + pieces(s.skip(i + 1), sep)
    }
}

/// The first separator is where the recursion says it is.
pub proof fn lemma_first_index(s: Seq<char>, sep: char, i: int)
    requires
        0 <= i <= s.len(),
        i < s.len() ==> s[i] == sep,
        forall|k: int| 0 <= k < i ==> #[trigger] s[k] != sep,
    ensures
        first_index(s, sep) == i,
    decreases s.len(),
{
    if s.len() > 0 && i > 0 {
        assert(s[0] != sep);
        assert forall|k: int| 0 <= k < i - 1 implies #[trigger] s.skip(1)[k] != sep by {
            assert(s[k + 1] != sep);
        }
        lemma_first_index(s.skip(1), sep, i - 1);
    }
}

/// Split `s` at every separator.
pub fn split_text<'a>(s: &'a str, sep: char) -> (r: Vec<&'a str>)
    ensures
        r@.len() == pieces(s@, sep).len(),
        forall|i: int| 0 <= i < r@.len() ==> (#[trigger] r@[i])@ == pieces(s@, sep)[i],
{
    let cs = chars_of(s);
    let mut out: Vec<&'a str> = Vec::new();
    let mut start: usize = 0;
    let mut i: usize = 0;
    let ghost all = pieces(s@, sep);
    assert(s@.skip(0) =~= s@);
    while i < cs.len()
        invariant
            start <= i <= cs@.len(),
            cs@ == s@,
            all == pieces(s@, sep),
            all.len() == out@.len() + pieces(s@.skip(start as int), sep).len(),
            forall|k: int| 0 <= k < out@.len() ==> (#[trigger] out@[k])@ == all[k],
            forall|k: int|
                0 <= k < pieces(s@.skip(start as int), sep).len() ==> #[trigger] pieces(
                    s@.skip(start as int),
                    sep,
                )[k] == all[out@.len() + k],
            forall|k: int| start <= k < i ==> #[trigger] s@[k] != sep,
        decreases cs@.len() - i,
    {
        if cs[i] == sep {
            let ghost rest = s@.skip(start as int);
            let ghost n = out@.len();
            proof {
                assert forall|k: int| 0 <= k < i - start implies #[trigger] rest[k] != sep by {
                    assert(s@[start + k] != sep);
                }
                lemma_first_index(rest, sep, i - start);
                assert(rest.skip(i - start + 1) =~= s@.skip(i + 1));
                assert(rest.take(i - start) =~= s@.subrange(start as int, i as int));
                assert(pieces(rest, sep)[0] == all[n as int]);
                assert forall|k: int| 0 <= k < pieces(s@.skip(i + 1), sep).len() implies #[trigger] pieces(
                    s@.skip(i + 1),
                    sep,
                )[k] == all[n + 1 + k] by {
                    assert(pieces(rest, sep)[k + 1] == all[n + (k + 1)]);
                }
            }
            out.push(s.substring_char(start, i));
            start = i + 1;
        }
        i = i + 1;
    }
    let ghost rest = s@.skip(start as int);
    proof {
        assert forall|k: int| 0 <= k < rest.len() implies #[trigger] rest[k] != sep by {
            assert(s@[start + k] != sep);
        }
        lemma_first_index(rest, sep, rest.len() as int);
        assert(rest =~= s@.subrange(start as int, i as int));
        assert(pieces(rest, sep)[0] == all[out@.len() as int]);
    }
    out.push(s.substring_char(start, cs.len()));
    out
}

// ---------------------------------------------------------------------
// Ordering
// ---------------------------------------------------------------------

/// Dictionary order by character: `a` stands strictly before `b`.
pub open spec fn precedes(a: Seq<char>, b: Seq<char>) -> bool
    decreases a.len(),
{
    if b.len() == 0 {
        false
    } else if a.len() == 0 {
        true
    } else if a[0] != b[0] {
        a[0] < b[0]
    } else {
        precedes(a.skip(1), b.skip(1))
    }
}

/// Dictionary order is transitive.
pub proof fn lemma_precedes_transitive(a: Seq<char>, b: Seq<char>, c: Seq<char>)
    requires
        precedes(a, b),
        precedes(b, c),
    ensures
        precedes(a, c),
    decreases a.len(),
{
    if a.len() > 0 && a[0] == b[0] && b[0] == c[0] {
        lemma_precedes_transitive(a.skip(1), b.skip(1), c.skip(1));
    }
}

/// Two texts are equal or one stands before the other, and never both.
pub proof fn lemma_precedes_total(a: Seq<char>, b: Seq<char>)
    ensures
        a == b || precedes(a, b) || precedes(b, a),
        !(precedes(a, b) && precedes(b, a)),
        !precedes(a, a),
    decreases a.len(),
{
    if a.len() > 0 && b.len() > 0 && a[0] == b[0] {
        lemma_precedes_total(a.skip(1), b.skip(1));
        if a.skip(1) == b.skip(1) {
            assert(a =~= seq![a[0]] + a.skip(1));
            assert(b =~= seq![b[0]] + b.skip(1));
        }
    }
    if a.len() == 0 && b.len() == 0 {
        assert(a =~= b);
    }
    if a.len() > 0 {
        lemma_precedes_total(a.skip(1), a.skip(1));
    }
}

/// Whether `a` stands strictly before `b` in dictionary order.
pub fn text_precedes(a: &str, b: &str) -> (r: bool)
    ensures
        r == precedes(a@, b@),
{
    let xs = chars_of(a);
    let ys = chars_of(b);
    let mut i: usize = 0;
    assert(a@.skip(0) =~= a@);
    assert(b@.skip(0) =~= b@);
    while i < xs.len() && i < ys.len()
        invariant
            i <= xs@.len(),
            i <= ys@.len(),
            xs@ == a@,
            ys@ == b@,
            precedes(a@, b@) == precedes(a@.skip(i as int), b@.skip(i as int)),
        decreases xs@.len() - i,
    {
        if xs[i] != ys[i] {
            return xs[i] < ys[i];
        }
        assert(a@.skip(i as int).skip(1) =~= a@.skip(i + 1));
        assert(b@.skip(i as int).skip(1) =~= b@.skip(i + 1));
        i = i + 1;
    }
    i < ys.len()
}

/// The texts of a list, as sequences of characters.
pub open spec fn views(v: Seq<String>) -> Seq<Seq<char>> {
    v.map_values(|s: String| s@)
}

/// Strictly increasing in dictionary order: sorted, and nothing twice.
pub open spec fn increasing(v: Seq<Seq<char>>) -> bool {
    forall|i: int, j: int| 0 <= i < j < v.len() ==> precedes(#[trigger] v[i], #[trigger] v[j])
}

/// A set of texts kept as an increasing list.
pub struct TopicSet {
    items: Vec<String>,
}

impl View for TopicSet {
    type V = Set<Seq<char>>;

    closed spec fn view(&self) -> Set<Seq<char>> {
        views(self.items@).to_set()
    }
}

impl TopicSet {
    #[verifier::type_invariant]
    spec fn sorted(self) -> bool {
        increasing(views(self.items@))
    }

    /// The set without elements.
    pub fn new() -> (r: Self)
        ensures
            r@ == Set::<Seq<char>>::empty(),
    {
        let r = TopicSet { items: Vec::new() };
        assert(r@ =~= Set::<Seq<char>>::empty());
        r
    }

    /// Add one text; adding what is there changes nothing.
    pub fn insert(&mut self, s: String)
        ensures
            final(self)@ == old(self)@.insert(s@),
    {
        proof {
            use_type_invariant(&*self);
        }
        let mut i: usize = 0;
        let ghost before = views(self.items@);
        while i < self.items.len() && text_precedes(self.items[i].as_str(), s.as_str())
            invariant
                i <= self.items@.len(),
                before == views(self.items@),
                *self == *old(self),
                forall|k: int| 0 <= k < i ==> precedes(#[trigger] before[k], s@),
            decreases self.items@.len() - i,
        {
            i = i + 1;
        }
        proof {
            lemma_precedes_total(s@, s@);
        }
        if i < self.items.len() && same_text(self.items[i].as_str(), s.as_str()) {
            proof {
                assert(before[i as int] == s@);
                assert(before.to_set().insert(s@) =~= before.to_set());
            }
            return;
        }
        proof {
            if i < self.items@.len() {
                lemma_precedes_total(before[i as int], s@);
            }
            assert forall|k: int| i <= k < before.len() implies precedes(s@, #[trigger] before[k]) by {
                if k > i {
                    lemma_precedes_transitive(s@, before[i as int], before[k]);
                }
            }
        }
        let ghost text = s@;
        let ghost after = before.insert(i as int, text);
        proof {
            assert(views(self.items@.insert(i as int, s)) =~= after);
            assert forall|a: int, b: int| 0 <= a < b < after.len() implies precedes(
                #[trigger] after[a],
                #[trigger] after[b],
            ) by {
                if b < i {
                    assert(precedes(before[a], before[b]));
                } else if a > i {
                    assert(precedes(before[a - 1], before[b - 1]));
                } else if a < i && b > i {
                    assert(precedes(before[a], before[b - 1]));
                }
            }
            assert(after.to_set() =~= before.to_set().insert(text)) by {
                assert forall|x: Seq<char>| after.to_set().contains(x) <==> before.to_set().insert(
                    text,
                ).contains(x) by {
                    if after.contains(x) {
                        let k = choose|k: int| 0 <= k < after.len() && after[k] == x;
                        if k < i {
                            assert(before[k] == x);
                        } else if k > i {
                            assert(before[k - 1] == x);
                        }
                    }
                    if before.contains(x) {
                        let k = choose|k: int| 0 <= k < before.len() && before[k] == x;
                        if k < i {
                            assert(after[k] == x);
                        } else {
                            assert(after[k + 1] == x);
                        }
                    }
                    assert(after[i as int] == text);
                }
            }
        }
        let mut items: Vec<String> = Vec::new();
        std::mem::swap(&mut items, &mut self.items);
        items.insert(i, s);
        self.items = items;
    }

    /// The elements in dictionary order.
    pub fn into_sorted(self) -> (r: Vec<String>)
        ensures
            increasing(views(r@)),
            views(r@).to_set() == self@,
    {
        proof {
            use_type_invariant(&self);
        }
        self.items
    }
}

// ---------------------------------------------------------------------
// Laws
// ---------------------------------------------------------------------

proof fn lemma_digits_denote(n: nat)
    ensures
        digits(n).len() > 0,
        number_of(digits(n)) == n,
        forall|i: int| 0 <= i < digits(n).len() ==> '0' <= #[trigger] digits(n)[i] <= '9',
        n > 0 ==> digits(n)[0] != '0',
    decreases n,
{
    if n < 10 {
        let s = digits(n);
        assert(s.drop_last() =~= Seq::<char>::empty());
        assert(number_of(s.drop_last()) == 0);
    } else {
        lemma_digits_denote(n / 10);
        let s = digits(n);
        assert(s.drop_last() =~= digits(n / 10));
    }
}

/// What is written in decimal reads as the number that it was written of, with or
/// without a plus in front, if that is within the limit, and else does not read. It
/// begins with no zero that could be left out.
pub proof fn lemma_decimal_reads_back(n: nat, limit: nat)
    ensures
        n <= limit ==> unsigned_value(digits(n), limit) == Some(n) && unsigned_value(
            seq!['+'] + digits(n),
            limit,
        ) == Some(n),
        n > limit ==> unsigned_value(digits(n), limit) is None,
        forall|i: int| 0 <= i < digits(n).len() ==> '0' <= #[trigger] digits(n)[i] <= '9',
        n > 0 ==> digits(n)[0] != '0',
        n == 0 ==> digits(n) == seq!['0'],
{
    lemma_digits_denote(n);
    let s = digits(n);
    assert(s[0] != '+');
    assert((seq!['+'] + s).skip(1) =~= s);
}

/// A negative number is written as its magnitude with a minus in front, and no other
/// number has one.
pub proof fn lemma_minus_is_for_negatives(n: nat)
    ensures
        signed_digits(n as int) == digits(n),
        signed_digits(n as int)[0] != '-',
        n > 0 ==> signed_digits(-n) == seq!['-'] + digits(n),
{
    lemma_digits_denote(n);
}

/// Only digits read as a number, after an optional plus.
pub proof fn lemma_only_digits_read(s: Seq<char>, limit: nat, i: int)
    requires
        unsigned_value(s, limit) is Some,
        0 <= i < s.len(),
    ensures
        '0' <= s[i] <= '9' || (i == 0 && s[0] == '+' && s.len() > 1),
        unsigned_value(s, limit)->0 <= limit,
{
    let d = without_plus(s);
    if s[0] == '+' {
        assert(d =~= s.skip(1));
        if i > 0 {
            assert(is_digit(d[i - 1]));
        }
    } else {
        assert(is_digit(d[i]));
    }
}

/// Pieces with a separator between each two.
pub open spec fn joined(parts: Seq<Seq<char>>, sep: char) -> Seq<char>
    decreases parts.len(),
{
    if parts.len() == 0 {
        Seq::empty()
    } else if parts.len() == 1 {
        parts[0]
    } else {
        parts[0] + seq![sep] + joined(parts.skip(1), sep)
    }
}

/// A text is what its pieces make with separators between them, and no piece holds a
/// separator.
pub proof fn lemma_pieces_make_the_text(s: Seq<char>, sep: char)
    ensures
        pieces(s, sep).len() > 0,
        joined(pieces(s, sep), sep) == s,
        forall|i: int|
            0 <= i < pieces(s, sep).len() ==> !(#[trigger] pieces(s, sep)[i]).contains(sep),
    decreases s.len(),
{
    let i = first_index(s, sep) as int;
    lemma_first_is_first(s, sep);
    let parts = pieces(s, sep);
    if i >= s.len() {
        assert(parts.len() == 1 && parts[0] == s);
    } else {
        let rest = s.skip(i + 1);
        lemma_pieces_make_the_text(rest, sep);
        assert(parts.skip(1) =~= pieces(rest, sep));
        assert(parts[0] == s.take(i));
        assert(s.take(i) + seq![sep] + rest =~= s);
        assert forall|k: int| 0 <= k < parts.len() implies !(#[trigger] parts[k]).contains(sep) by {
            if k > 0 {
                assert(parts[k] == pieces(rest, sep)[k - 1]);
            }
        }
    }
}

proof fn lemma_first_is_first(s: Seq<char>, sep: char)
    ensures
        first_index(s, sep) <= s.len(),
        first_index(s, sep) < s.len() ==> s[first_index(s, sep) as int] == sep,
        forall|k: int| 0 <= k < first_index(s, sep) ==> #[trigger] s[k] != sep,
    decreases s.len(),
{
    if s.len() > 0 && s[0] != sep {
        let rest = s.skip(1);
        lemma_first_is_first(rest, sep);
        assert forall|k: int| 0 <= k < first_index(s, sep) implies #[trigger] s[k] != sep by {
            if k > 0 {
                assert(rest[k - 1] != sep);
            }
        }
    }
}

/// Where a pattern first occurs after a prefix in which it cannot begin, the
/// prefix stays, the pattern gives way to its replacement, and so on with what
/// follows.
pub proof fn lemma_replaced_at(
    prefix: Seq<char>,
    s: Seq<char>,
    pattern: Seq<char>,
    with: Seq<char>,
)
    requires
        pattern.len() > 0,
        forall|i: int| 0 <= i < prefix.len() ==> #[trigger] prefix[i] != pattern[0],
    ensures
        replaced(prefix + pattern + s, pattern, with) == prefix + with + replaced(s, pattern, with),
{
    let tail = pattern + s;
    assert(prefix + pattern + s =~= prefix + tail);
    lemma_replaced_after_prefix(prefix, tail, pattern, with);
    assert(tail.take(pattern.len() as int) =~= pattern);
    assert(tail.skip(pattern.len() as int) =~= s);
    assert(prefix + (with + replaced(s, pattern, with)) =~= prefix + with + replaced(
        s,
        pattern,
        with,
    ));
}

/// One text stands before another if they agree up to somewhere and there it ends,
/// or has the smaller character.
pub proof fn lemma_dictionary_order(common: Seq<char>, a: Seq<char>, b: Seq<char>)
    ensures
        precedes(common + a, common + b) <==> precedes(a, b),
        precedes(Seq::empty(), a) <==> a.len() > 0,
        a.len() > 0 && b.len() > 0 && a[0] != b[0] ==> (precedes(common + a, common + b) <==> a[0]
            < b[0]),
    decreases common.len(),
{
    if common.len() == 0 {
        assert(common + a =~= a);
        assert(common + b =~= b);
    } else {
        lemma_dictionary_order(common.skip(1), a, b);
        assert((common + a).skip(1) =~= common.skip(1) + a);
        assert((common + b).skip(1) =~= common.skip(1) + b);
    }
}

proof fn lemma_pieces_of_one(s: Seq<char>, sep: char)
    requires
        !s.contains(sep),
    ensures
        pieces(s, sep) == seq![s],
{
    assert forall|k: int| 0 <= k < s.len() implies #[trigger] s[k] != sep by {}
    lemma_first_index(s, sep, s.len() as int);
}

/// Pieces that hold no separator come out of the text that they make with
/// separators between them.
pub proof fn lemma_pieces_of_joined(parts: Seq<Seq<char>>, sep: char)
    requires
        parts.len() > 0,
        forall|i: int| 0 <= i < parts.len() ==> !(#[trigger] parts[i]).contains(sep),
    ensures
        pieces(joined(parts, sep), sep) == parts,
    decreases parts.len(),
{
    let s = joined(parts, sep);
    if parts.len() == 1 {
        assert(!parts[0].contains(sep));
        lemma_pieces_of_one(parts[0], sep);
        assert(parts =~= seq![parts[0]]);
    } else {
        let rest = parts.skip(1);
        assert forall|i: int| 0 <= i < rest.len() implies !(#[trigger] rest[i]).contains(sep) by {
            assert(rest[i] == parts[i + 1]);
        }
        lemma_pieces_of_joined(rest, sep);
        let head = parts[0];
        let n = head.len() as int;
        assert(!parts[0].contains(sep));
        assert forall|k: int| 0 <= k < n implies #[trigger] s[k] != sep by {
            assert(s[k] == head[k]);
            assert(head.contains(head[k]));
        }
        assert(s[n] == sep);
        lemma_first_index(s, sep, n);
        assert(s.take(n) =~= head);
        assert(s.skip(n + 1) =~= joined(rest, sep));
        assert(seq![head] + rest =~= parts);
    }
}

/// Replacing one character by another changes every such character and no other.
pub proof fn lemma_character_replaced(s: Seq<char>, from: char, to: char)
    ensures
        replaced(s, seq![from], seq![to]) == s.map_values(
            |c: char|
                if c == from {
                    to
                } else {
                    c
                },
        ),
    decreases s.len(),
{
    let changed = s.map_values(
        |c: char|
            if c == from {
                to
            } else {
                c
            },
    );
    if s.len() > 0 {
        let rest = s.skip(1);
        lemma_character_replaced(rest, from, to);
        if s[0] == from {
            assert(s.take(1) =~= seq![from]);
            assert(seq![to] + replaced(rest, seq![from], seq![to]) =~= changed);
        } else {
            assert(s.take(1)[0] != seq![from][0]);
            assert(seq![s[0]] + replaced(rest, seq![from], seq![to]) =~= changed);
        }
    } else {
        assert(changed =~= s);
    }
}

} // verus!
