//! Text as a sequence of characters: the operations on names, paths and
//! numbers that the rest of the crate is stated in.

use vstd::prelude::*;

verus! {

/// `String::push`: the character is appended to what the string held.
pub assume_specification[ String::push ](s: &mut String, c: char)
    ensures
        final(s)@ == old(s)@.push(c),
;

// ---------------------------------------------------------------- models

/// `s` begins with `p`.
pub open spec fn starts(s: Seq<char>, p: Seq<char>) -> bool {
    p.len() <= s.len() && s.subrange(0, p.len() as int) == p
}

/// `s` ends with `p`.
pub open spec fn ends(s: Seq<char>, p: Seq<char>) -> bool {
    p.len() <= s.len() && s.subrange(s.len() - p.len(), s.len() as int) == p
}

/// What is left of `s` behind its prefix `p`.
pub open spec fn without(s: Seq<char>, p: Seq<char>) -> Seq<char> {
    s.subrange(p.len() as int, s.len() as int)
}

/// The texts of a sequence of strings.
pub open spec fn texts(v: Seq<String>) -> Seq<Seq<char>> {
    v.map_values(|s: String| s@)
}

/// The text of an optional string.
pub open spec fn text_of(o: Option<String>) -> Option<Seq<char>> {
    match o {
        Some(s) => Some(s@),
        None => None,
    }
}

pub open spec fn is_digit(c: char) -> bool {
    '0' <= c && c <= '9'
}

pub open spec fn is_upper(c: char) -> bool {
    'A' <= c && c <= 'Z'
}

pub open spec fn is_lower(c: char) -> bool {
    'a' <= c && c <= 'z'
}

pub open spec fn is_alphanumeric(c: char) -> bool {
    is_digit(c) || is_upper(c) || is_lower(c)
}

pub open spec fn is_hex(c: char) -> bool {
    is_digit(c) || ('a' <= c && c <= 'f') || ('A' <= c && c <= 'F')
}

/// The characters with the Unicode property White_Space.
pub open spec fn is_white(c: char) -> bool {
    let n = c as int;
    ||| 0x09 <= n <= 0x0d
    ||| n == 0x20
    ||| n == 0x85
    ||| n == 0xa0
    ||| n == 0x1680
    ||| 0x2000 <= n <= 0x200a
    ||| n == 0x2028
    ||| n == 0x2029
    ||| n == 0x202f
    ||| n == 0x205f
    ||| n == 0x3000
}

/// An ASCII capital becomes the small letter; any other character stays.
pub open spec fn lower(c: char) -> char {
    if is_upper(c) {
        (c as u32 + 32) as char
    } else {
        c
    }
}

pub open spec fn lowered(s: Seq<char>) -> Seq<char> {
    s.map_values(|c: char| lower(c))
}

/// The order of the Unicode scalar values, first difference first; a proper
/// prefix comes before the longer text.
pub open spec fn before(a: Seq<char>, b: Seq<char>) -> bool
    decreases a.len(),
{
    if b.len() == 0 {
        false
    } else if a.len() == 0 {
        true
    } else if a[0] != b[0] {
        (a[0] as int) < (b[0] as int)
    } else {
        before(a.drop_first(), b.drop_first())
    }
}

pub open spec fn digit(d: nat) -> char {
    (48 + d) as char
}

/// The decimal digits of `n`, without leading zeros.
pub open spec fn decimal(n: nat) -> Seq<char>
    decreases n,
{
    if n < 10 {
        seq![digit(n)]
    } else {
        decimal(n / 10).push(digit(n % 10))
    }
}

/// The number that a sequence of decimal digits stands for.
pub open spec fn digits_value(s: Seq<char>) -> nat
    decreases s.len(),
{
    if s.len() == 0 {
        0
    } else {
        digits_value(s.drop_last()) * 10 + (s.last() as int - 48) as nat
    }
}

pub open spec fn all_digits(s: Seq<char>) -> bool {
    forall|i: int| 0 <= i < s.len() ==> is_digit(#[trigger] s[i])
}

/// The digits of an unsigned number: one leading `+` is allowed.
pub open spec fn unsigned_body(s: Seq<char>) -> Seq<char> {
    if s.len() > 0 && s[0] == '+' {
        s.drop_first()
    } else {
        s
    }
}

/// The number written in `s`, if `s` is an optional `+` and one or more decimal
/// digits, and the number is at most `max`.
pub open spec fn unsigned(s: Seq<char>, max: nat) -> Option<nat> {
    let body = unsigned_body(s);
    if body.len() > 0 && all_digits(body) && digits_value(body) <= max {
        Some(digits_value(body))
    } else {
        None
    }
}

/// The parts with `sep` between each two.
pub open spec fn joined(parts: Seq<Seq<char>>, sep: Seq<char>) -> Seq<char>
    decreases parts.len(),
{
    if parts.len() == 0 {
        Seq::empty()
    } else if parts.len() == 1 {
        parts[0]
    } else {
        joined(parts.drop_last(), sep) + sep + parts.last()
    }
}

/// The pieces of `s` between the occurrences of `sep`: one more than there are
/// occurrences.
pub open spec fn pieces(s: Seq<char>, sep: char) -> Seq<Seq<char>>
    decreases s.len(),
{
    if s.len() == 0 {
        seq![Seq::<char>::empty()]
    } else {
        let done = pieces(s.drop_last(), sep);
        if s.last() == sep {
            done.push(Seq::empty())
        } else {
            done.drop_last().push(done.last().push(s.last()))
        }
    }
}

/// `s` without the `c`s at its end.
pub open spec fn trimmed_end(s: Seq<char>, c: char) -> Seq<char>
    decreases s.len(),
{
    if s.len() > 0 && s.last() == c {
        trimmed_end(s.drop_last(), c)
    } else {
        s
    }
}

pub open spec fn left_trimmed(s: Seq<char>) -> Seq<char>
    decreases s.len(),
{
    if s.len() > 0 && is_white(s[0]) {
        left_trimmed(s.drop_first())
    } else {
        s
    }
}

pub open spec fn right_trimmed(s: Seq<char>) -> Seq<char>
    decreases s.len(),
{
    if s.len() > 0 && is_white(s.last()) {
        right_trimmed(s.drop_last())
    } else {
        s
    }
}

/// `s` without the white space at its two ends.
pub open spec fn trimmed(s: Seq<char>) -> Seq<char> {
    right_trimmed(left_trimmed(s))
}

// ------------------------------------------------------------ characters

pub fn digit_char(c: char) -> (r: bool)
    ensures
        r == is_digit(c),
{
    '0' <= c && c <= '9'
}

pub fn alphanumeric_char(c: char) -> (r: bool)
    ensures
        r == is_alphanumeric(c),
{
    ('0' <= c && c <= '9') || ('A' <= c && c <= 'Z') || ('a' <= c && c <= 'z')
}

pub fn hex_char(c: char) -> (r: bool)
    ensures
        r == is_hex(c),
{
    ('0' <= c && c <= '9') || ('a' <= c && c <= 'f') || ('A' <= c && c <= 'F')
}

pub fn white_char(c: char) -> (r: bool)
    ensures
        r == is_white(c),
{
    let n: u32 = c as u32;
    (0x09 <= n && n <= 0x0d) || n == 0x20 || n == 0x85 || n == 0xa0 || n == 0x1680 || (0x2000 <= n
        && n <= 0x200a) || n == 0x2028 || n == 0x2029 || n == 0x202f || n == 0x205f || n == 0x3000
}

// ------------------------------------------------- strings and characters

/// The characters of a string, in order.
pub fn chars_of(s: &str) -> (r: Vec<char>)
    ensures
        r@ == s@,
{
    let mut out: Vec<char> = Vec::new();
    for c in it: s.chars()
        invariant
            it.seq() == s@,
            out@ == s@.take(it.index() as int),
    {
        out.push(c);
        assert(s@.take(it.index() + 1) =~= s@.take(it.index() as int).push(c));
    }
    assert(s@.take(s@.len() as int) =~= s@);
    out
}

/// The string of the characters from `from` up to, not including, `to`.
pub fn string_of(chars: &Vec<char>, from: usize, to: usize) -> (r: String)
    requires
        from <= to <= chars@.len(),
    ensures
        r@ == chars@.subrange(from as int, to as int),
{
    let mut out = String::new();
    let mut i: usize = from;
    while i < to
        invariant
            from <= i <= to <= chars@.len(),
            out@ == chars@.subrange(from as int, i as int),
        decreases to - i,
    {
        out.push(chars[i]);
        assert(chars@.subrange(from as int, i + 1) =~= chars@.subrange(from as int, i as int).push(
            chars@[i as int],
        ));
        i += 1;
    }
    out
}

/// Whether two texts are the same.
pub fn same(a: &str, b: &str) -> (r: bool)
    ensures
        r == (a@ == b@),
{
    let x = chars_of(a);
    let y = chars_of(b);
    if x.len() != y.len() {
        return false;
    }
    let mut i: usize = 0;
    while i < x.len()
        invariant
            x@ == a@,
            y@ == b@,
            x@.len() == y@.len(),
            i <= x@.len(),
            forall|j: int| 0 <= j < i ==> x@[j] == y@[j],
        decreases x.len() - i,
    {
        if x[i] != y[i] {
            assert(a@[i as int] != b@[i as int]);
            return false;
        }
        i += 1;
    }
    assert(a@ =~= b@);
    true
}

pub fn starts_with(s: &str, prefix: &str) -> (r: bool)
    ensures
        r == starts(s@, prefix@),
{
    let x = chars_of(s);
    let p = chars_of(prefix);
    if p.len() > x.len() {
        return false;
    }
    let mut i: usize = 0;
    while i < p.len()
        invariant
            x@ == s@,
            p@ == prefix@,
            i <= p@.len() <= x@.len(),
            forall|j: int| 0 <= j < i ==> x@[j] == p@[j],
        decreases p.len() - i,
    {
        if x[i] != p[i] {
            assert(s@.subrange(0, p@.len() as int)[i as int] != prefix@[i as int]);
            return false;
        }
        i += 1;
    }
    assert(s@.subrange(0, p@.len() as int) =~= prefix@);
    true
}

pub fn ends_with(s: &str, suffix: &str) -> (r: bool)
    ensures
        r == ends(s@, suffix@),
{
    let x = chars_of(s);
    let p = chars_of(suffix);
    if p.len() > x.len() {
        return false;
    }
    let offset: usize = x.len() - p.len();
    let mut i: usize = 0;
    while i < p.len()
        invariant
            x@ == s@,
            p@ == suffix@,
            i <= p@.len() <= x@.len(),
            offset + p.len() == x.len(),
            forall|j: int| 0 <= j < i ==> x@[offset + j] == p@[j],
        decreases p.len() - i,
    {
        if x[offset + i] != p[i] {
            assert(s@.subrange(s@.len() - p@.len(), s@.len() as int)[i as int]
                != suffix@[i as int]);
            return false;
        }
        i += 1;
    }
    assert(s@.subrange(s@.len() - p@.len(), s@.len() as int) =~= suffix@);
    true
}

/// What follows `prefix`, if the text begins with it.
pub fn strip_prefix(s: &str, prefix: &str) -> (r: Option<String>)
    ensures
        r is Some <==> starts(s@, prefix@),
        r is Some ==> r->0@ == without(s@, prefix@),
{
    if starts_with(s, prefix) {
        let x = chars_of(s);
        let p = chars_of(prefix);
        Some(string_of(&x, p.len(), x.len()))
    } else {
        None
    }
}

pub fn has_char(s: &str, c: char) -> (r: bool)
    ensures
        r == s@.contains(c),
{
    let x = chars_of(s);
    let mut i: usize = 0;
    while i < x.len()
        invariant
            x@ == s@,
            i <= x@.len(),
            forall|j: int| 0 <= j < i ==> x@[j] != c,
        decreases x.len() - i,
    {
        if x[i] == c {
            assert(s@[i as int] == c);
            return true;
        }
        i += 1;
    }
    false
}

/// The texts one after the other.
pub fn glue(a: &str, b: &str) -> (r: String)
    ensures
        r@ == a@ + b@,
{
    let mut out = a.to_owned();
    out.append(b);
    out
}

/// Three texts one after the other.
pub fn glue3(a: &str, b: &str, c: &str) -> (r: String)
    ensures
        r@ == a@ + b@ + c@,
{
    let mut out = a.to_owned();
    out.append(b);
    out.append(c);
    out
}

/// A copy of each string.
pub fn copy_strings(v: &Vec<String>) -> (r: Vec<String>)
    ensures
        r@ == v@,
{
    let mut out: Vec<String> = Vec::new();
    let mut i: usize = 0;
    while i < v.len()
        invariant
            i <= v@.len(),
            out@ == v@.take(i as int),
        decreases v.len() - i,
    {
        out.push(v[i].clone());
        assert(v@.take(i + 1) =~= v@.take(i as int).push(v@[i as int]));
        i += 1;
    }
    assert(v@.take(v@.len() as int) =~= v@);
    out
}

/// Whether `x` is one of the strings.
pub fn has_string(v: &Vec<String>, x: &str) -> (r: bool)
    ensures
        r == texts(v@).contains(x@),
{
    let mut i: usize = 0;
    while i < v.len()
        invariant
            i <= v@.len(),
            forall|j: int| 0 <= j < i ==> texts(v@)[j] != x@,
        decreases v.len() - i,
    {
        if same(v[i].as_str(), x) {
            assert(texts(v@)[i as int] == x@);
            return true;
        }
        i += 1;
    }
    false
}

/// The strings with `sep` between each two.
pub fn join(parts: &Vec<String>, sep: &str) -> (r: String)
    ensures
        r@ == joined(texts(parts@), sep@),
{
    let mut out = String::new();
    let mut i: usize = 0;
    while i < parts.len()
        invariant
            i <= parts@.len(),
            out@ == joined(texts(parts@).take(i as int), sep@),
        decreases parts.len() - i,
    {
        proof {
            let all = texts(parts@);
            assert(all.take(i + 1).drop_last() =~= all.take(i as int));
            assert(all.take(i + 1).last() == parts@[i as int]@);
        }
        if i > 0 {
            out.append(sep);
        }
        out.append(parts[i].as_str());
        proof {
            if i == 0 {
                assert(out@ =~= texts(parts@).take(1)[0]);
            }
        }
        i += 1;
    }
    assert(texts(parts@).take(parts@.len() as int) =~= texts(parts@));
    out
}

/// The pieces of the text between the occurrences of `sep`.
pub fn split(s: &str, sep: char) -> (r: Vec<String>)
    ensures
        texts(r@) == pieces(s@, sep),
{
    let x = chars_of(s);
    let mut done: Vec<String> = Vec::new();
    let mut current = String::new();
    let mut i: usize = 0;
    proof {
        assert(s@.take(0).len() == 0);
        assert(texts(done@).push(current@) =~= seq![Seq::<char>::empty()]);
        assert(pieces(s@.take(0), sep) == seq![Seq::<char>::empty()]);
    }
    while i < x.len()
        invariant
            x@ == s@,
            i <= x@.len(),
            texts(done@).push(current@) == pieces(s@.take(i as int), sep),
        decreases x.len() - i,
    {
        let ghost sofar = pieces(s@.take(i as int), sep);
        let ghost old_done = texts(done@);
        proof {
            assert(s@.take(i + 1).drop_last() =~= s@.take(i as int));
            assert(s@.take(i + 1).last() == x@[i as int]);
            assert(sofar.drop_last() =~= old_done);
            assert(sofar.last() == current@);
        }
        if x[i] == sep {
            let piece = current;
            current = String::new();
            done.push(piece);
            assert(texts(done@) =~= sofar);
        } else {
            current.push(x[i]);
            assert(texts(done@).push(current@) =~= pieces(s@.take(i + 1), sep));
        }
        i += 1;
    }
    assert(s@.take(s@.len() as int) =~= s@);
    let ghost old_done = texts(done@);
    let ghost tail = current@;
    done.push(current);
    assert(texts(done@) =~= old_done.push(tail));
    done
}

/// The text without the `c`s at its end.
pub fn trim_end_char(s: &str, c: char) -> (r: String)
    ensures
        r@ == trimmed_end(s@, c),
{
    let x = chars_of(s);
    let mut end: usize = x.len();
    assert(s@.take(s@.len() as int) =~= s@);
    while end > 0 && x[end - 1] == c
        invariant
            x@ == s@,
            end <= x@.len(),
            trimmed_end(s@.take(end as int), c) == trimmed_end(s@, c),
        decreases end,
    {
        assert(s@.take(end as int).drop_last() =~= s@.take(end - 1));
        end -= 1;
    }
    assert(s@.subrange(0, end as int) =~= s@.take(end as int));
    string_of(&x, 0, end)
}

/// The text without the white space at its two ends.
pub fn trim(s: &str) -> (r: String)
    ensures
        r@ == trimmed(s@),
{
    let x = chars_of(s);
    let mut start: usize = 0;
    assert(s@.skip(0) =~= s@);
    while start < x.len() && white_char(x[start])
        invariant
            x@ == s@,
            start <= x@.len(),
            left_trimmed(s@.skip(start as int)) == left_trimmed(s@),
        decreases x.len() - start,
    {
        assert(s@.skip(start as int).drop_first() =~= s@.skip(start + 1));
        start += 1;
    }
    let ghost left = s@.skip(start as int);
    let mut end: usize = x.len();
    assert(left =~= s@.subrange(start as int, end as int));
    while end > start && white_char(x[end - 1])
        invariant
            x@ == s@,
            start <= end <= x@.len(),
            right_trimmed(s@.subrange(start as int, end as int)) == right_trimmed(left),
        decreases end,
    {
        assert(s@.subrange(start as int, end as int).drop_last() =~= s@.subrange(
            start as int,
            end - 1,
        ));
        end -= 1;
    }
    string_of(&x, start, end)
}

/// The text with small letters in place of the ASCII capitals.
pub fn to_lower(s: &str) -> (r: String)
    ensures
        r@ == lowered(s@),
{
    let x = chars_of(s);
    let mut out = String::new();
    let mut i: usize = 0;
    while i < x.len()
        invariant
            x@ == s@,
            i <= x@.len(),
            out@ == lowered(s@.take(i as int)),
        decreases x.len() - i,
    {
        out.push(lower_char(x[i]));
        assert(lowered(s@.take(i + 1)) =~= lowered(s@.take(i as int)).push(lower(s@[i as int])));
        i += 1;
    }
    assert(s@.take(s@.len() as int) =~= s@);
    out
}

fn lower_char(c: char) -> (r: char)
    ensures
        r == lower(c),
{
    if 'A' <= c && c <= 'Z' {
        let n: u8 = c as u8;
        (n + 32) as char
    } else {
        c
    }
}

/// Whether `a` comes before `b`.
pub fn less(a: &str, b: &str) -> (r: bool)
    ensures
        r == before(a@, b@),
{
    let x = chars_of(a);
    let y = chars_of(b);
    let mut i: usize = 0;
    assert(a@.skip(0) =~= a@);
    assert(b@.skip(0) =~= b@);
    while i < x.len() && i < y.len()
        invariant
            x@ == a@,
            y@ == b@,
            i <= x@.len(),
            i <= y@.len(),
            before(a@.skip(i as int), b@.skip(i as int)) == before(a@, b@),
        decreases x.len() - i,
    {
        if x[i] != y[i] {
            assert(a@.skip(i as int)[0] == x@[i as int]);
            assert(b@.skip(i as int)[0] == y@[i as int]);
            return x[i] < y[i];
        }
        assert(a@.skip(i as int).drop_first() =~= a@.skip(i + 1));
        assert(b@.skip(i as int).drop_first() =~= b@.skip(i + 1));
        i += 1;
    }
    i < y.len()
}

// --------------------------------------------------------------- numbers

/// The decimal digits of a number.
pub fn number(n: u64) -> (r: String)
    ensures
        r@ == decimal(n as nat),
    decreases n,
{
    if n < 10 {
        let mut out = String::new();
        out.push(digit_of(n as u8));
        assert(out@ =~= seq![digit(n as nat)]);
        out
    } else {
        let mut out = number(n / 10);
        out.push(digit_of((n % 10) as u8));
        out
    }
}

fn digit_of(d: u8) -> (r: char)
    requires
        d < 10,
    ensures
        r == digit(d as nat),
{
    (48 + d) as char
}

/// The number that the text writes, if it is an unsigned number of at most `max`.
pub fn parse_unsigned(s: &str, max: u64) -> (r: Option<u64>)
    ensures
        r is Some <==> unsigned(s@, max as nat) is Some,
        r is Some ==> r->0 == unsigned(s@, max as nat)->0,
{
    let x = chars_of(s);
    let start: usize = if x.len() > 0 && x[0] == '+' {
        1
    } else {
        0
    };
    let ghost body = unsigned_body(s@);
    assert(body =~= s@.skip(start as int));
    if start == x.len() {
        return None;
    }
    let mut value: u64 = 0;
    let mut i: usize = start;
    assert(body.take(0).len() == 0);
    while i < x.len()
        invariant
            x@ == s@,
            start <= i <= x@.len(),
            body == s@.skip(start as int),
            body == unsigned_body(s@),
            body.len() > 0,
            all_digits(body.take(i - start)),
            value == digits_value(body.take(i - start)),
            value <= max,
        decreases x.len() - i,
    {
        let ghost k = i - start;
        proof {
            assert(body[k] == x@[i as int]);
            assert(body.take(k + 1).drop_last() =~= body.take(k));
            assert(body.take(k + 1).last() == body[k]);
        }
        if !digit_char(x[i]) {
            assert(!is_digit(body[k]));
            return None;
        }
        let d: u64 = x[i] as u64 - 48;
        if value > (u64::MAX - d) / 10 || value * 10 + d > max {
            proof {
                assert(digits_value(body.take(k + 1)) == value * 10 + d);
                assert(value * 10 + d > max) by {
                    if value > (u64::MAX - d) / 10 {
                        assert(value * 10 + d > u64::MAX);
                    }
                }
                if all_digits(body) {
                    lemma_digits_grow(body, k + 1);
                }
            }
            return None;
        }
        value = value * 10 + d;
        i += 1;
    }
    assert(body.take(body.len() as int) =~= body);
    Some(value)
}

/// The place of the first character at which reading digits fails: no digit, or
/// one that makes the number greater than `max`.
pub open spec fn digits_stop(body: Seq<char>, max: nat, k: int) -> bool {
    &&& 0 <= k < body.len()
    &&& all_digits(body.take(k))
    &&& digits_value(body.take(k)) <= max
    &&& (!is_digit(body[k]) || digits_value(body.take(k + 1)) > max)
}

/// The number written in `s`, or why there is none.
pub open spec fn number_result(s: Seq<char>, max: nat) -> Result<nat, Seq<char>> {
    let body = unsigned_body(s);
    if s.len() == 0 {
        Err("cannot parse integer from empty string"@)
    } else if unsigned(s, max) is Some {
        Ok(unsigned(s, max)->0)
    } else if exists|k: int| digits_stop(body, max, k) && #[trigger] is_digit(body[k]) {
        Err("number too large to fit in target type"@)
    } else {
        Err("invalid digit found in string"@)
    }
}

/// Reading digits fails at one place at most.
proof fn lemma_digits_stop_once(body: Seq<char>, max: nat, j: int, k: int)
    requires
        digits_stop(body, max, j),
        digits_stop(body, max, k),
    ensures
        j == k,
{
    if j < k {
        lemma_digits_grow(body.take(k), j + 1);
        assert(body.take(k).take(j + 1) =~= body.take(j + 1));
        assert(body.take(k)[j] == body[j]);
    } else if k < j {
        lemma_digits_grow(body.take(j), k + 1);
        assert(body.take(j).take(k + 1) =~= body.take(k + 1));
        assert(body.take(j)[k] == body[k]);
    }
}

/// The number that the text writes, or why there is none.
pub fn parse_number(s: &str, max: u64) -> (r: Result<u64, String>)
    ensures
        match r {
            Ok(n) => number_result(s@, max as nat) == Ok::<nat, Seq<char>>(n as nat),
            Err(e) => number_result(s@, max as nat) == Err::<nat, Seq<char>>(e@),
        },
{
    if s.is_empty() {
        return Err("cannot parse integer from empty string".to_owned());
    }
    match parse_unsigned(s, max) {
        Some(n) => {
            return Ok(n);
        },
        None => {},
    }
    let x = chars_of(s);
    let start: usize = if x.len() > 0 && x[0] == '+' {
        1
    } else {
        0
    };
    let ghost body = unsigned_body(s@);
    assert(body =~= s@.skip(start as int));
    let mut value: u64 = 0;
    let mut i: usize = start;
    assert(body.take(0).len() == 0);
    while i < x.len()
        invariant
            x@ == s@,
            s@.len() > 0,
            unsigned(s@, max as nat) is None,
            start <= i <= x@.len(),
            body == s@.skip(start as int),
            body == unsigned_body(s@),
            all_digits(body.take(i - start)),
            value == digits_value(body.take(i - start)),
            value <= max,
        decreases x.len() - i,
    {
        let ghost k = i - start;
        proof {
            assert(body[k] == x@[i as int]);
            assert(body.take(k + 1).drop_last() =~= body.take(k));
            assert(body.take(k + 1).last() == body[k]);
        }
        if !digit_char(x[i]) {
            proof {
                assert(digits_stop(body, max as nat, k));
                assert forall|j: int| digits_stop(body, max as nat, j) implies !#[trigger] is_digit(
                    body[j],
                ) by {
                    lemma_digits_stop_once(body, max as nat, j, k);
                }
            }
            return Err("invalid digit found in string".to_owned());
        }
        let d: u64 = x[i] as u64 - 48;
        if value > (u64::MAX - d) / 10 || value * 10 + d > max {
            proof {
                assert(digits_value(body.take(k + 1)) == value * 10 + d);
                assert(value * 10 + d > max) by {
                    if value > (u64::MAX - d) / 10 {
                        assert(value * 10 + d > u64::MAX);
                    }
                }
                assert(digits_stop(body, max as nat, k));
                assert(is_digit(body[k]));
            }
            return Err("number too large to fit in target type".to_owned());
        }
        value = value * 10 + d;
        i += 1;
    }
    assert(body.take(body.len() as int) =~= body);
    assert forall|j: int| digits_stop(body, max as nat, j) implies !#[trigger] is_digit(body[j]) by {
        assert(body.len() == 0);
    }
    Err("invalid digit found in string".to_owned())
}

/// More digits never make the number smaller.
proof fn lemma_digits_grow(s: Seq<char>, k: int)
    requires
        0 <= k <= s.len(),
    ensures
        digits_value(s.take(k)) <= digits_value(s),
    decreases s.len(),
{
    if k == s.len() {
        assert(s.take(k) =~= s);
    } else {
        lemma_digits_grow(s.drop_last(), k);
        assert(s.drop_last().take(k) =~= s.take(k));
    }
}

// ----------------------------------------------------------------- facts

/// Nothing comes before itself.
pub proof fn lemma_before_irreflexive(a: Seq<char>)
    ensures
        !before(a, a),
    decreases a.len(),
{
    if a.len() > 0 {
        lemma_before_irreflexive(a.drop_first());
    }
}

/// Of two different texts one comes before the other.
pub proof fn lemma_before_total(a: Seq<char>, b: Seq<char>)
    requires
        a != b,
    ensures
        before(a, b) || before(b, a),
    decreases a.len(),
{
    if a.len() > 0 && b.len() > 0 && a[0] == b[0] {
        assert(a =~= seq![a[0]] + a.drop_first());
        assert(b =~= seq![b[0]] + b.drop_first());
        lemma_before_total(a.drop_first(), b.drop_first());
    } else if a.len() == 0 && b.len() == 0 {
        assert(a =~= b);
    }
}

/// The order is transitive.
pub proof fn lemma_before_transitive(a: Seq<char>, b: Seq<char>, c: Seq<char>)
    requires
        before(a, b),
        before(b, c),
    ensures
        before(a, c),
    decreases a.len(),
{
    if a.len() > 0 && b.len() > 0 && c.len() > 0 && a[0] == b[0] && b[0] == c[0] {
        lemma_before_transitive(a.drop_first(), b.drop_first(), c.drop_first());
    }
}

/// The decimal digits of a number are digits, and stand for the number: the
/// text of a number reads back as the number.
pub proof fn lemma_decimal_reads_back(n: nat)
    ensures
        decimal(n).len() > 0,
        all_digits(decimal(n)),
        digits_value(decimal(n)) == n,
        unsigned(decimal(n), n) == Some(n),
    decreases n,
{
    if n < 10 {
        assert(decimal(n).drop_last().len() == 0);
        assert(digits_value(decimal(n).drop_last()) == 0);
        assert(decimal(n).last() == digit(n));
    } else {
        lemma_decimal_reads_back(n / 10);
        assert(decimal(n).drop_last() =~= decimal(n / 10));
        assert(decimal(n).last() == digit(n % 10));
    }
    assert(decimal(n)[0] != '+') by {
        assert(is_digit(decimal(n)[0]));
    }
}

/// A text without the separator is one piece, and one more piece behind a separator.
#[verifier::rlimit(50)]
#[verifier::spinoff_prover]
pub proof fn lemma_last_piece(s: Seq<char>, sep: char, last: Seq<char>)
    requires
        !last.contains(sep),
    ensures
        pieces(last, sep) == seq![last],
        pieces(s + seq![sep] + last, sep) == pieces(s, sep).push(last),
    decreases last.len(),
{
    let whole = s + seq![sep] + last;
    if last.len() == 0 {
        assert(last =~= Seq::empty());
        assert(pieces(last, sep) =~= seq![last]);
        assert(whole.last() == sep);
        assert(whole.drop_last() =~= s);
        assert(pieces(whole, sep) =~= pieces(s, sep).push(last));
    } else {
        let front = last.drop_last();
        let c = last.last();
        assert(last[last.len() - 1] == c && c != sep);
        assert(!front.contains(sep)) by {
            if front.contains(sep) {
                let i = choose|i: int| 0 <= i < front.len() && front[i] == sep;
                assert(last[i] == sep);
            }
        }
        lemma_last_piece(s, sep, front);
        assert(front.push(c) =~= last);
        assert(pieces(last, sep) =~= seq![last]);
        assert(whole.last() == c);
        assert(whole.drop_last() =~= s + seq![sep] + front);
        let done = pieces(s, sep).push(front);
        assert(done.drop_last() =~= pieces(s, sep));
        assert(pieces(whole, sep) =~= pieces(s, sep).push(last));
    }
}

// ---------------------------------------------------------------- quoting

/// What the `Debug` of a text shows.
pub uninterp spec fn debugged(s: Seq<char>) -> Seq<char>;

/// `<str as std::fmt::Debug>`: the text in quotation marks, its special
/// characters escaped. How they are escaped stays unsaid.
#[verifier::external_body]
pub(crate) fn debug_text(s: &str) -> (r: String)
    ensures
        r@ == debugged(s@),
{
    format!("{s:?}")
}

/// Texts that were joined by a character that none of them holds come apart again.
pub proof fn law_joined_texts_come_apart(s: Seq<Seq<char>>, sep: char)
    requires
        s.len() > 0,
        forall|i: int| 0 <= i < s.len() ==> !(#[trigger] s[i]).contains(sep),
    ensures
        pieces(joined(s, seq![sep]), sep) == s,
    decreases s.len(),
{
    let last = s[s.len() - 1];
    assert(!last.contains(sep));
    if s.len() == 1 {
        lemma_last_piece(Seq::empty(), sep, last);
        assert(s =~= seq![last]);
    } else {
        let front = s.drop_last();
        assert forall|i: int| 0 <= i < front.len() implies !(#[trigger] front[i]).contains(sep) by {
            assert(front[i] == s[i]);
        }
        law_joined_texts_come_apart(front, sep);
        lemma_last_piece(joined(front, seq![sep]), sep, last);
        assert(s =~= front.push(last));
    }
}

/// The first of several texts comes before the others.
pub proof fn lemma_first_joined(m: Seq<Seq<char>>, comma: Seq<char>)
    requires
        m.len() >= 2,
    ensures
        joined(m, comma) == m[0] + (comma + joined(m.skip(1), comma)),
    decreases m.len(),
{
    let rest = m.skip(1);
    if m.len() == 2 {
        assert(joined(m.drop_last(), comma) == m[0]);
        assert(joined(rest, comma) == m[1]);
        assert(m[0] + comma + m[1] =~= m[0] + (comma + m[1]));
    } else {
        let front = m.drop_last();
        lemma_first_joined(front, comma);
        assert(front.skip(1) =~= rest.drop_last());
        let middle = joined(rest.drop_last(), comma);
        assert(joined(rest, comma) == middle + comma + m.last());
        assert(m[0] + (comma + middle) + comma + m.last() =~= m[0] + (comma + (middle + comma
            + m.last())));
    }
}

/// A text begins with another exactly where it is that text with something behind it, and ends
/// with another exactly where it has something before it.
pub proof fn law_texts_begin_and_end(s: Seq<char>, p: Seq<char>, rest: Seq<char>)
    ensures
        starts(p + rest, p),
        without(p + rest, p) == rest,
        starts(s, p) ==> s == p + without(s, p),
        ends(rest + p, p),
        ends(s, p) ==> s == s.take(s.len() - p.len()) + p,
{
    assert((p + rest).subrange(0, p.len() as int) =~= p);
    assert(without(p + rest, p) =~= rest);
    assert((rest + p).subrange(rest.len() as int, (rest + p).len() as int) =~= p);
    if starts(s, p) {
        assert(s =~= p + without(s, p));
    }
    if ends(s, p) {
        assert(s =~= s.take(s.len() - p.len()) + p);
    }
}

/// White space around a text does not count, and nothing inside it is lost.
pub proof fn law_only_white_space_is_trimmed(a: Seq<char>, s: Seq<char>, b: Seq<char>)
    requires
        forall|i: int| 0 <= i < a.len() ==> is_white(#[trigger] a[i]),
        forall|i: int| 0 <= i < b.len() ==> is_white(#[trigger] b[i]),
        s.len() > 0,
        !is_white(s[0]),
        !is_white(s.last()),
    ensures
        left_trimmed(a + s + b) == s + b,
        trimmed(a + s + b) == s,
{
    lemma_left_trimmed(a, s + b);
    assert(a + s + b =~= a + (s + b));
    assert((s + b)[0] == s[0]);
    lemma_right_trimmed(s, b);
}

proof fn lemma_left_trimmed(a: Seq<char>, s: Seq<char>)
    requires
        forall|i: int| 0 <= i < a.len() ==> is_white(#[trigger] a[i]),
        s.len() > 0,
        !is_white(s[0]),
    ensures
        left_trimmed(a + s) == s,
    decreases a.len(),
{
    if a.len() > 0 {
        assert((a + s)[0] == a[0]);
        assert((a + s).drop_first() =~= a.drop_first() + s);
        lemma_left_trimmed(a.drop_first(), s);
    } else {
        assert(a + s =~= s);
    }
}

proof fn lemma_right_trimmed(s: Seq<char>, b: Seq<char>)
    requires
        forall|i: int| 0 <= i < b.len() ==> is_white(#[trigger] b[i]),
        s.len() > 0,
        !is_white(s.last()),
    ensures
        right_trimmed(s + b) == s,
    decreases b.len(),
{
    if b.len() > 0 {
        assert((s + b).last() == b[b.len() - 1]);
        assert((s + b).drop_last() =~= s + b.drop_last());
        lemma_right_trimmed(s, b.drop_last());
    } else {
        assert(s + b =~= s);
    }
}

/// A number is read as what it was written from, as long as it fits; a larger one is refused.
pub proof fn law_numbers_are_read_as_written(n: nat, max: nat)
    ensures
        n <= max ==> unsigned(decimal(n), max) == Some(n) && number_result(decimal(n), max) == Ok::<
            nat,
            Seq<char>,
        >(n),
        n > max ==> unsigned(decimal(n), max) is None && number_result(decimal(n), max) is Err,
        !is_white(decimal(n)[0]),
        !is_white(decimal(n).last()),
{
    lemma_decimal_reads_back(n);
    assert(is_digit(decimal(n)[0]));
    assert(is_digit(decimal(n)[decimal(n).len() - 1]));
    assert(unsigned_body(decimal(n)) == decimal(n));
}

/// One text comes before another exactly where it is the beginning of the other, or where it has
/// the smaller character at the first place in which they differ.
pub proof fn law_texts_are_ordered_by_their_characters(a: Seq<char>, b: Seq<char>, k: int)
    requires
        0 <= k <= a.len(),
        k <= b.len(),
        a.take(k) == b.take(k),
    ensures
        k == a.len() && k < b.len() ==> before(a, b),
        k == b.len() ==> !before(a, b),
        k < a.len() && k < b.len() && a[k] != b[k] ==> (before(a, b) <==> (a[k] as int) < (
        b[k] as int)),
    decreases k,
{
    if k > 0 {
        assert(a[0] == a.take(k)[0] && b[0] == b.take(k)[0]);
        let x = a.drop_first();
        let y = b.drop_first();
        assert(x.take(k - 1) =~= y.take(k - 1)) by {
            assert forall|i: int| 0 <= i < k - 1 implies x[i] == y[i] by {
                assert(a.take(k)[i + 1] == b.take(k)[i + 1]);
                assert(a.take(k)[i + 1] == a[i + 1] && b.take(k)[i + 1] == b[i + 1]);
                assert(x[i] == a[i + 1] && y[i] == b[i + 1]);
            }
        }
        law_texts_are_ordered_by_their_characters(x, y, k - 1);
    }
}

} // verus!
