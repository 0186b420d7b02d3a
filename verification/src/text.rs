//! Text as sequences of characters: order, search, splitting and decimal
//! numbers.

use vstd::prelude::*;
use vstd::string::StringExecFns;

verus! {

/// The characters of `s`, one by one.
pub fn chars_of(s: &str) -> (v: Vec<char>)
    ensures
        v@ == s@,
{
    let mut v: Vec<char> = Vec::new();
    for c in it: s.chars()
        invariant
            it.seq() == s@,
            v@ == it.seq().take(it.index() as int),
    {
        v.push(c);
        assert(it.seq().take(it.index() + 1) =~= it.seq().take(it.index() as int).push(c));
    }
    assert(s@.take(s@.len() as int) =~= s@);
    v
}

/// `a` comes before `b` in dictionary order of their characters' code points:
/// at the first place where they differ `a` has the lesser character, or `a`
/// ends there and `b` goes on.
pub open spec fn lex_lt(a: Seq<char>, b: Seq<char>) -> bool {
    exists|k: int| differ_at(a, b, k)
}

/// `a` and `b` agree before place `k`, and at `k` either `a` ends and `b` goes
/// on or `a` has the lesser character.
pub open spec fn differ_at(a: Seq<char>, b: Seq<char>, k: int) -> bool {
    &&& 0 <= k <= a.len()
    &&& k < b.len()
    &&& a.take(k) == b.take(k)
    &&& (k < a.len() ==> (a[k] as u32) < (b[k] as u32))
}

/// No text comes before itself, and of two texts at most one comes before the
/// other.
pub proof fn lemma_lex_lt_asymmetric(a: Seq<char>, b: Seq<char>)
    requires
        lex_lt(a, b),
    ensures
        a != b,
        !lex_lt(b, a),
{
    let k = choose|k: int| differ_at(a, b, k);
    if a == b {
        assert(k < a.len());
    }
    if lex_lt(b, a) {
        let l = choose|l: int| differ_at(b, a, l);
        if k < l {
            assert(b.take(l)[k] == a.take(l)[k]);
        } else if l < k {
            assert(a.take(k)[l] == b.take(k)[l]);
        }
    }
}

/// Dictionary order is transitive.
pub proof fn lemma_lex_lt_transitive(a: Seq<char>, b: Seq<char>, c: Seq<char>)
    requires
        lex_lt(a, b),
        lex_lt(b, c),
    ensures
        lex_lt(a, c),
{
    let k = choose|k: int| differ_at(a, b, k);
    let l = choose|l: int| differ_at(b, c, l);
    let m = if k <= l {
        k
    } else {
        l
    };
    assert(a.take(m) =~= c.take(m)) by {
        assert forall|i: int| 0 <= i < m implies a[i] == c[i] by {
            assert(a.take(k)[i] == b.take(k)[i]);
            assert(b.take(l)[i] == c.take(l)[i]);
        }
    }
    if k < l {
        assert(b.take(l)[k] == c.take(l)[k]);
    } else if l < k {
        assert(a.take(k)[l] == b.take(k)[l]);
    }
    assert(differ_at(a, c, m));
}

/// Of two different texts one comes before the other.
pub proof fn lemma_lex_lt_total(a: Seq<char>, b: Seq<char>)
    requires
        a != b,
    ensures
        lex_lt(a, b) || lex_lt(b, a),
{
    assert(a.take(0) =~= b.take(0));
    lemma_first_difference(a, b, 0);
}

proof fn lemma_first_difference(a: Seq<char>, b: Seq<char>, k: int)
    requires
        0 <= k <= a.len(),
        k <= b.len(),
        a.take(k) == b.take(k),
        a != b,
    ensures
        lex_lt(a, b) || lex_lt(b, a),
    decreases a.len() - k,
{
    if k == a.len() {
        if k == b.len() {
            assert(a.take(k) =~= a);
            assert(b.take(k) =~= b);
        } else {
            assert(differ_at(a, b, k));
        }
    } else if k == b.len() {
        assert(differ_at(b, a, k));
    } else if a[k] != b[k] {
        vstd::utf8::char_u32_cast(a[k], a[k] as u32);
        vstd::utf8::char_u32_cast(b[k], b[k] as u32);
        if (a[k] as u32) < (b[k] as u32) {
            assert(differ_at(a, b, k));
        } else {
            assert(differ_at(b, a, k));
        }
    } else {
        assert(a.take(k + 1) =~= a.take(k).push(a[k]));
        assert(b.take(k + 1) =~= b.take(k).push(b[k]));
        lemma_first_difference(a, b, k + 1);
    }
}

/// Whether `a` comes before `b`. This is std's `<` on `str`, which compares
/// byte by byte; on UTF-8 that is the dictionary order of the code points.
#[verifier::external_body]
pub(crate) fn str_lt(a: &str, b: &str) -> (r: bool)
    ensures
        r == lex_lt(a@, b@),
{
    a < b
}

/// Whether `a` and `b` hold the same characters.
pub fn str_eq(a: &str, b: &str) -> (r: bool)
    ensures
        r == (a@ == b@),
{
    let x = chars_of(a);
    let y = chars_of(b);
    if x.len() != y.len() {
        return false;
    }
    let mut i: usize = 0;
    while i < x.len()
        invariant
            x@ == a@,
            y@ == b@,
            x@.len() == y@.len(),
            0 <= i <= x@.len(),
            forall|j: int| 0 <= j < i ==> x@[j] == y@[j],
        decreases x@.len() - i,
    {
        if x[i] != y[i] {
            return false;
        }
        i += 1;
    }
    assert(x@ =~= y@);
    true
}

/// `pat` stands in `s` at place `pos`.
pub open spec fn occurs_at(s: Seq<char>, pat: Seq<char>, pos: int) -> bool {
    0 <= pos && pos + pat.len() <= s.len() && s.subrange(pos, pos + pat.len()) == pat
}

/// The pieces of `s` from `start` on that the separator `pat` parts, where the
/// piece that began at `start` has been scanned up to `pos`. Separators are
/// found from the left and do not overlap.
pub open spec fn pieces_from(s: Seq<char>, pat: Seq<char>, start: int, pos: int) -> Seq<Seq<char>>
    decreases s.len() - pos,
{
    if pos >= s.len() || start < 0 || pos < start || pat.len() == 0 {
        seq![s.subrange(start, s.len() as int)]
    } else if occurs_at(s, pat, pos) {
        seq![s.subrange(start, pos)] + pieces_from(s, pat, pos + pat.len(), pos + pat.len())
    } else {
        pieces_from(s, pat, start, pos + 1)
    }
}

/// The pieces of `s` between the occurrences of the separator `pat`: one piece
/// where `pat` does not occur, and an empty piece where two separators meet or
/// one stands at either end.
pub open spec fn split_on(s: Seq<char>, pat: Seq<char>) -> Seq<Seq<char>> {
    pieces_from(s, pat, 0, 0)
}

/// Whether `pat` stands in `s` at place `pos`.
pub fn matches_at(s: &Vec<char>, pat: &Vec<char>, pos: usize) -> (r: bool)
    ensures
        r == occurs_at(s@, pat@, pos as int),
{
    if pat.len() > s.len() || pos > s.len() - pat.len() {
        return false;
    }
    let mut i: usize = 0;
    while i < pat.len()
        invariant
            0 <= i <= pat@.len(),
            pos + pat@.len() <= s@.len() <= usize::MAX,
            forall|j: int| 0 <= j < i ==> s@[pos + j] == pat@[j],
        decreases pat@.len() - i,
    {
        if s[pos + i] != pat[i] {
            assert(s@.subrange(pos as int, pos + pat@.len())[i as int] != pat@[i as int]);
            return false;
        }
        i += 1;
    }
    assert(s@.subrange(pos as int, pos + pat@.len()) =~= pat@);
    true
}

/// The text of `s` from place `from` up to, not including, place `to`.
pub(crate) fn text_of(s: &str, from: usize, to: usize) -> (r: String)
    requires
        from <= to <= s@.len(),
    ensures
        r@ == s@.subrange(from as int, to as int),
{
    s.substring_char(from, to).to_owned()
}

/// The texts of a list of strings.
pub open spec fn views(v: Seq<String>) -> Seq<Seq<char>> {
    Seq::new(v.len(), |i: int| v[i]@)
}

/// A string appended to a list appends its text to the list's texts.
pub proof fn lemma_views_push(v: Seq<String>, s: String)
    ensures
        views(v.push(s)) == views(v).push(s@),
{
    assert(views(v.push(s)) =~= views(v).push(s@));
}

/// Splits `s` at every occurrence of the separator `pat`, as `split_on` says.
/// An empty separator parts nothing.
pub fn split(s: &str, pat: &str) -> (r: Vec<String>)
    ensures
        views(r@) == split_on(s@, pat@),
{
    let chars = chars_of(s);
    let sep = chars_of(pat);
    let n = chars.len();
    let mut out: Vec<String> = Vec::new();
    if sep.len() == 0 {
        out.push(text_of(s, 0, n));
        assert(views(out@) =~= split_on(s@, pat@));
        return out;
    }
    assert(views(out@) =~= Seq::<Seq<char>>::empty());
    let mut start: usize = 0;
    let mut pos: usize = 0;
    while pos < n
        invariant
            chars@ == s@,
            sep@ == pat@,
            n == chars@.len(),
            sep@.len() > 0,
            0 <= start <= pos,
            start <= n,
            split_on(s@, pat@) == views(out@) + pieces_from(s@, pat@, start as int, pos as int),
        decreases n - pos,
    {
        if matches_at(&chars, &sep, pos) {
            let piece = text_of(s, start, pos);
            proof {
                lemma_views_push(out@, piece);
                assert(views(out@).push(piece@) + pieces_from(
                    s@,
                    pat@,
                    pos + sep@.len(),
                    pos + sep@.len(),
                ) =~= views(out@) + pieces_from(s@, pat@, start as int, pos as int));
            }
            out.push(piece);
            pos = pos + sep.len();
            start = pos;
        } else {
            pos += 1;
        }
    }
    let piece = text_of(s, start, n);
    proof {
        lemma_views_push(out@, piece);
    }
    out.push(piece);
    out
}

/// What follows `prefix` in `s`, where `s` begins with it.
pub fn strip_prefix(s: &str, prefix: &str) -> (r: Option<String>)
    ensures
        r matches Some(rest) ==> occurs_at(s@, prefix@, 0) && rest@ == s@.skip(prefix@.len() as int),
        r is None ==> !occurs_at(s@, prefix@, 0),
{
    let chars = chars_of(s);
    let pre = chars_of(prefix);
    if matches_at(&chars, &pre, 0) {
        Some(text_of(s, pre.len(), chars.len()))
    } else {
        None
    }
}

/// What stands before `suffix` in `s`, where `s` ends with it.
pub fn strip_suffix(s: &str, suffix: &str) -> (r: Option<String>)
    ensures
        r matches Some(rest) ==> suffix@.len() <= s@.len() && occurs_at(
            s@,
            suffix@,
            s@.len() - suffix@.len(),
        ) && rest@ == s@.take(s@.len() - suffix@.len()),
        r is None ==> !(suffix@.len() <= s@.len() && occurs_at(s@, suffix@, s@.len() - suffix@.len())),
{
    let chars = chars_of(s);
    let suf = chars_of(suffix);
    if suf.len() <= chars.len() && matches_at(&chars, &suf, chars.len() - suf.len()) {
        Some(text_of(s, 0, chars.len() - suf.len()))
    } else {
        None
    }
}

/// The last place of `c` in `s`, or -1 where `s` does not hold it.
pub open spec fn last_index(s: Seq<char>, c: char) -> int
    decreases s.len(),
{
    if s.len() == 0 {
        -1
    } else if s.last() == c {
        s.len() - 1
    } else {
        last_index(s.drop_last(), c)
    }
}

/// The first place of `c` in `s` at or after `from`, or the length of `s`
/// where there is none.
pub open spec fn first_index(s: Seq<char>, c: char, from: int) -> int
    decreases s.len() - from,
{
    if from < 0 || from >= s.len() {
        s.len() as int
    } else if s[from] == c {
        from
    } else {
        first_index(s, c, from + 1)
    }
}

/// What `last_index` finds: the place holds `c` and no later place does.
pub proof fn lemma_last_index(s: Seq<char>, c: char)
    ensures
        -1 <= last_index(s, c) < s.len(),
        last_index(s, c) >= 0 ==> s[last_index(s, c)] == c,
        forall|j: int| last_index(s, c) < j < s.len() ==> s[j] != c,
    decreases s.len(),
{
    if s.len() > 0 && s.last() != c {
        lemma_last_index(s.drop_last(), c);
        assert forall|j: int| last_index(s, c) < j < s.len() implies s[j] != c by {
            if j < s.len() - 1 {
                assert(s.drop_last()[j] == s[j]);
            }
        }
    }
}

/// The last place of `c` in `s`, if `s` holds it.
pub fn find_last(s: &Vec<char>, c: char) -> (r: Option<usize>)
    ensures
        r matches Some(i) ==> i as int == last_index(s@, c),
        r is None ==> last_index(s@, c) == -1,
{
    let mut i: usize = s.len();
    assert(s@.take(i as int) =~= s@);
    while i > 0
        invariant
            0 <= i <= s@.len(),
            last_index(s@, c) == last_index(s@.take(i as int), c),
        decreases i,
    {
        assert(s@.take(i as int).last() == s@[i - 1]);
        if s[i - 1] == c {
            return Some(i - 1);
        }
        assert(s@.take(i as int).drop_last() =~= s@.take(i - 1));
        i -= 1;
    }
    None
}

/// The first place of `c` in `s` at or after `from`, or the length of `s`.
pub(crate) fn find_first(s: &Vec<char>, c: char, from: usize) -> (r: usize)
    requires
        from <= s@.len(),
    ensures
        r as int == first_index(s@, c, from as int),
{
    let mut i: usize = from;
    while i < s.len()
        invariant
            from <= i <= s@.len(),
            first_index(s@, c, from as int) == first_index(s@, c, i as int),
        decreases s@.len() - i,
    {
        if s[i] == c {
            return i;
        }
        i += 1;
    }
    i
}

/// The value of the decimal digit `c`, or -1 where `c` is no digit.
pub open spec fn digit_value(c: char) -> int {
    if c == '0' {
        0
    } else if c == '1' {
        1
    } else if c == '2' {
        2
    } else if c == '3' {
        3
    } else if c == '4' {
        4
    } else if c == '5' {
        5
    } else if c == '6' {
        6
    } else if c == '7' {
        7
    } else if c == '8' {
        8
    } else if c == '9' {
        9
    } else {
        -1
    }
}

/// The decimal digit of a value below ten.
pub open spec fn digit_char(d: int) -> char {
    if d == 0 {
        '0'
    } else if d == 1 {
        '1'
    } else if d == 2 {
        '2'
    } else if d == 3 {
        '3'
    } else if d == 4 {
        '4'
    } else if d == 5 {
        '5'
    } else if d == 6 {
        '6'
    } else if d == 7 {
        '7'
    } else if d == 8 {
        '8'
    } else {
        '9'
    }
}

/// Every character of `s` is a decimal digit.
pub open spec fn all_digits(s: Seq<char>) -> bool {
    forall|i: int| 0 <= i < s.len() ==> digit_value(#[trigger] s[i]) >= 0
}

/// The number that the digits of `s` write in base ten.
pub open spec fn decimal_value(s: Seq<char>) -> int
    decreases s.len(),
{
    if s.len() == 0 {
        0
    } else {
        decimal_value(s.drop_last()) * 10 + digit_value(s.last())
    }
}

/// What `s` says as a `u32`: one or more decimal digits, with a `+` before them
/// or not, whose value fits. Anything else, the empty text and a lone sign
/// included, is no number.
pub open spec fn parse_u32_spec(s: Seq<char>) -> Option<u32> {
    let body = if s.len() > 0 && s[0] == '+' {
        s.skip(1)
    } else {
        s
    };
    if body.len() > 0 && all_digits(body) && decimal_value(body) <= u32::MAX {
        Some(decimal_value(body) as u32)
    } else {
        None
    }
}

/// A run of digits is worth at least as much as any run it begins with.
pub proof fn lemma_decimal_prefix(s: Seq<char>, k: int)
    requires
        all_digits(s),
        0 <= k <= s.len(),
    ensures
        0 <= decimal_value(s.take(k)) <= decimal_value(s),
    decreases s.len() - k,
{
    if k == s.len() {
        assert(s.take(k) =~= s);
        lemma_decimal_nonnegative(s);
    } else {
        lemma_decimal_prefix(s, k + 1);
        assert(s.take(k + 1).drop_last() =~= s.take(k));
        assert(digit_value(s[k]) >= 0);
        assert(s.take(k + 1).last() == s[k]);
        lemma_decimal_nonnegative(s.take(k));
    }
}

proof fn lemma_decimal_nonnegative(s: Seq<char>)
    requires
        all_digits(s),
    ensures
        0 <= decimal_value(s),
    decreases s.len(),
{
    if s.len() > 0 {
        assert(digit_value(s[s.len() - 1]) >= 0);
        lemma_decimal_nonnegative(s.drop_last());
    }
}

/// The value of the decimal digit `c`, if it is one.
pub fn digit_of(c: char) -> (r: Option<u8>)
    ensures
        r matches Some(d) ==> d as int == digit_value(c),
        r is None ==> digit_value(c) == -1,
{
    if c == '0' {
        Some(0)
    } else if c == '1' {
        Some(1)
    } else if c == '2' {
        Some(2)
    } else if c == '3' {
        Some(3)
    } else if c == '4' {
        Some(4)
    } else if c == '5' {
        Some(5)
    } else if c == '6' {
        Some(6)
    } else if c == '7' {
        Some(7)
    } else if c == '8' {
        Some(8)
    } else if c == '9' {
        Some(9)
    } else {
        None
    }
}

/// Reads `s` as a `u32` written in decimal, as `parse_u32_spec` says.
pub fn parse_u32(s: &str) -> (r: Option<u32>)
    ensures
        r == parse_u32_spec(s@),
{
    let chars = chars_of(s);
    let start: usize = if chars.len() > 0 && chars[0] == '+' {
        1
    } else {
        0
    };
    let ghost body = s@.skip(start as int);
    if start == chars.len() {
        return None;
    }
    assert(s@.skip(0) =~= s@);
    let mut acc: u64 = 0;
    let mut i: usize = start;
    assert(body.take(0) =~= Seq::<char>::empty());
    while i < chars.len()
        invariant
            chars@ == s@,
            body == s@.skip(start as int),
            body == if s@.len() > 0 && s@[0] == '+' {
                s@.skip(1)
            } else {
                s@
            },
            body.len() > 0,
            start <= i <= chars@.len(),
            all_digits(body.take(i - start)),
            acc == decimal_value(body.take(i - start)),
            acc <= u32::MAX,
        decreases chars@.len() - i,
    {
        let c = chars[i];
        assert(body[i - start] == c);
        assert(body.take(i - start + 1).drop_last() =~= body.take(i - start));
        assert(body.take(i - start + 1).last() == c);
        match digit_of(c) {
            None => {
                return None;
            },
            Some(d) => {
                let next: u64 = acc * 10 + d as u64;
                if next > u32::MAX as u64 {
                    proof {
                        if all_digits(body) {
                            lemma_decimal_prefix(body, i - start + 1);
                        }
                    }
                    return None;
                }
                acc = next;
            },
        }
        i += 1;
    }
    assert(body.take(i - start) =~= body);
    Some(acc as u32)
}

/// The decimal digits of `n`, without leading zeros.
pub open spec fn decimal_text(n: nat) -> Seq<char>
    decreases n,
{
    if n < 10 {
        seq![digit_char(n as int)]
    } else {
        decimal_text(n / 10).push(digit_char((n % 10) as int))
    }
}

/// The digit of a value below ten, as a text of one character.
fn digit_text(d: u64) -> (r: &'static str)
    requires
        d < 10,
    ensures
        r@ == seq![digit_char(d as int)],
{
    proof {
        reveal_strlit("0");
        reveal_strlit("1");
        reveal_strlit("2");
        reveal_strlit("3");
        reveal_strlit("4");
        reveal_strlit("5");
        reveal_strlit("6");
        reveal_strlit("7");
        reveal_strlit("8");
        reveal_strlit("9");
    }
    let r = if d == 0 {
        "0"
    } else if d == 1 {
        "1"
    } else if d == 2 {
        "2"
    } else if d == 3 {
        "3"
    } else if d == 4 {
        "4"
    } else if d == 5 {
        "5"
    } else if d == 6 {
        "6"
    } else if d == 7 {
        "7"
    } else if d == 8 {
        "8"
    } else {
        "9"
    };
    assert(r@ =~= seq![digit_char(d as int)]);
    r
}

/// Appends the decimal digits of `n` to `out`.
pub fn push_decimal(out: &mut String, n: u64)
    ensures
        final(out)@ == old(out)@ + decimal_text(n as nat),
    decreases n,
{
    if n >= 10 {
        push_decimal(out, n / 10);
    }
    out.append(digit_text(n % 10));
    proof {
        if n >= 10 {
            assert(old(out)@ + decimal_text((n / 10) as nat) + seq![digit_char((n % 10) as int)]
                =~= old(out)@ + decimal_text(n as nat));
        } else {
            assert(old(out)@ + seq![digit_char((n % 10) as int)] =~= old(out)@ + decimal_text(
                n as nat,
            ));
        }
    }
}

/// `n` written in decimal.
pub fn decimal(n: u64) -> (r: String)
    ensures
        r@ == decimal_text(n as nat),
{
    let mut out = String::new();
    push_decimal(&mut out, n);
    assert(Seq::<char>::empty() + decimal_text(n as nat) =~= decimal_text(n as nat));
    out
}

/// A number written by `decimal_text` reads back as itself.
pub proof fn lemma_decimal_round_trip(n: nat)
    ensures
        decimal_text(n).len() > 0,
        all_digits(decimal_text(n)),
        decimal_value(decimal_text(n)) == n,
        decimal_text(n)[0] != '+',
        n <= u32::MAX ==> parse_u32_spec(decimal_text(n)) == Some(n as u32),
    decreases n,
{
    let t = decimal_text(n);
    if n < 10 {
        assert(t.drop_last() =~= Seq::<char>::empty());
        assert(decimal_value(t.drop_last()) == 0);
    } else {
        lemma_decimal_round_trip(n / 10);
        assert(t.drop_last() =~= decimal_text(n / 10));
        assert(t[0] == decimal_text(n / 10)[0]);
    }
}

/// The texts of `parts` one after the other, with `sep` between each two.
pub open spec fn join(parts: Seq<Seq<char>>, sep: Seq<char>) -> Seq<char>
    decreases parts.len(),
{
    if parts.len() == 0 {
        Seq::<char>::empty()
    } else if parts.len() == 1 {
        parts[0]
    } else {
        join(parts.drop_last(), sep) + sep + parts.last()
    }
}

/// Joins `parts` with `sep` between each two.
pub fn join_texts(parts: &Vec<String>, sep: &str) -> (r: String)
    ensures
        r@ == join(views(parts@), sep@),
{
    let mut out = String::new();
    let mut i: usize = 0;
    let ghost all = views(parts@);
    assert(all.take(0) =~= Seq::<Seq<char>>::empty());
    while i < parts.len()
        invariant
            0 <= i <= parts@.len(),
            all == views(parts@),
            out@ == join(all.take(i as int), sep@),
        decreases parts@.len() - i,
    {
        if i > 0 {
            out.append(sep);
        }
        out.append(parts[i].as_str());
        proof {
            let next = all.take(i + 1);
            assert(next.drop_last() =~= all.take(i as int));
            assert(next.last() == parts@[i as int]@);
            assert(out@ =~= join(next, sep@));
        }
        i += 1;
    }
    assert(all.take(parts@.len() as int) =~= all);
    out
}

/// The first of two or more parts stands in front of the joined text.
proof fn lemma_join_front(parts: Seq<Seq<char>>, sep: Seq<char>)
    requires
        parts.len() >= 2,
    ensures
        join(parts, sep) == parts[0] + sep + join(parts.skip(1), sep),
    decreases parts.len(),
{
    let rest = parts.skip(1);
    if parts.len() == 2 {
        let front = parts.drop_last();
        assert(front.len() == 1 && front[0] == parts[0]);
        assert(rest.len() == 1 && rest[0] == parts[1]);
        assert(join(front, sep) == parts[0]);
        assert(join(rest, sep) == parts[1]);
        assert(join(parts, sep) == join(front, sep) + sep + parts.last());
        assert(join(parts, sep) =~= parts[0] + sep + join(rest, sep));
    } else {
        let front = parts.drop_last();
        lemma_join_front(front, sep);
        assert(front.skip(1) =~= rest.drop_last());
        assert(rest.last() == parts.last());
        assert(front[0] == parts[0]);
        assert(join(parts, sep) == join(front, sep) + sep + parts.last());
        assert(join(front, sep) == parts[0] + sep + join(front.skip(1), sep));
        assert(join(rest, sep) == join(rest.drop_last(), sep) + sep + rest.last());
        assert(join(parts, sep) =~= parts[0] + sep + join(rest, sep));
    }
}

/// Where the first character of the separator does not occur, the scan for
/// separators passes on.
proof fn lemma_scan_free(s: Seq<char>, pat: Seq<char>, start: int, pos: int, end: int)
    requires
        0 <= start <= pos <= end <= s.len(),
        pat.len() > 0,
        forall|p: int| pos <= p < end ==> s[p] != pat[0],
    ensures
        pieces_from(s, pat, start, pos) == pieces_from(s, pat, start, end),
    decreases end - pos,
{
    if pos < end {
        if occurs_at(s, pat, pos) {
            assert(s.subrange(pos, pos + pat.len())[0] == pat[0]);
        }
        lemma_scan_free(s, pat, start, pos + 1, end);
    }
}

proof fn lemma_split_join_from(prefix: Seq<char>, parts: Seq<Seq<char>>, sep: Seq<char>)
    requires
        sep.len() > 0,
        parts.len() >= 1,
        forall|i: int, p: int| 0 <= i < parts.len() && 0 <= p < parts[i].len() ==> parts[i][p] != sep[0],
    ensures
        pieces_from(prefix + join(parts, sep), sep, prefix.len() as int, prefix.len() as int) == parts,
    decreases parts.len(),
{
    let s = prefix + join(parts, sep);
    let from = prefix.len() as int;
    if parts.len() == 1 {
        assert(s =~= prefix + parts[0]);
        assert forall|p: int| from <= p < s.len() implies s[p] != sep[0] by {
            assert(s[p] == parts[0][p - from]);
        }
        lemma_scan_free(s, sep, from, from, s.len() as int);
        assert(s.subrange(from, s.len() as int) =~= parts[0]);
        assert(parts =~= seq![parts[0]]);
    } else {
        let rest = parts.skip(1);
        lemma_join_front(parts, sep);
        let end = from + parts[0].len();
        assert(s =~= prefix + parts[0] + sep + join(rest, sep));
        assert forall|p: int| from <= p < end implies s[p] != sep[0] by {
            assert(s[p] == parts[0][p - from]);
        }
        lemma_scan_free(s, sep, from, from, end);
        assert(s.subrange(end, end + sep.len()) =~= sep);
        assert(occurs_at(s, sep, end));
        assert(s.subrange(from, end) =~= parts[0]);
        let next = prefix + parts[0] + sep;
        assert(s =~= next + join(rest, sep));
        assert forall|i: int, p: int| 0 <= i < rest.len() && 0 <= p < rest[i].len() implies rest[i][p]
            != sep[0] by {
            assert(rest[i] == parts[i + 1]);
        }
        lemma_split_join_from(next, rest, sep);
        assert(parts =~= seq![parts[0]] + rest);
    }
}

/// Parts that are joined come apart again as they were, if there is at least
/// one of them and none holds the first character of the separator.
pub proof fn lemma_split_join(parts: Seq<Seq<char>>, sep: Seq<char>)
    requires
        sep.len() > 0,
        parts.len() >= 1,
        forall|i: int, p: int| 0 <= i < parts.len() && 0 <= p < parts[i].len() ==> parts[i][p] != sep[0],
    ensures
        split_on(join(parts, sep), sep) == parts,
{
    lemma_split_join_from(Seq::empty(), parts, sep);
    assert(Seq::<char>::empty() + join(parts, sep) =~= join(parts, sep));
}

} // verus!
