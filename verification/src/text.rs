//! Strings: building, rendering and taking apart.

use vstd::prelude::*;
use vstd::string::*;

verus! {

/// `String::push` appends one character.
pub assume_specification[ String::push ](s: &mut String, c: char)
    ensures
        final(s)@ == old(s)@.push(c),
;

/// The characters of each string.
pub open spec fn texts(v: Seq<String>) -> Seq<Seq<char>> {
    v.map_values(|s: String| s@)
}

/// A decimal digit.
pub open spec fn digit(d: int) -> char
    recommends
        0 <= d < 10,
{
    ('0' as int + d) as char
}

/// Decimal notation of `n`, without leading zeros.
pub open spec fn decimal(n: nat) -> Seq<char>
    decreases n,
{
    if n < 10 {
        seq![digit(n as int)]
    } else {
        decimal(n / 10).push(digit((n % 10) as int))
    }
}

fn digit_char(d: u64) -> (c: char)
    requires
        d < 10,
    ensures
        c == digit(d as int),
{
    (48u8 + d as u8) as char
}

fn push_decimal(out: &mut String, n: u64)
    ensures
        final(out)@ == old(out)@ + decimal(n as nat),
    decreases n,
{
    if n < 10 {
        out.push(digit_char(n));
        assert(out@ =~= old(out)@ + decimal(n as nat));
    } else {
        push_decimal(out, n / 10);
        out.push(digit_char(n % 10));
        assert(out@ =~= old(out)@ + decimal(n as nat));
    }
}

/// Decimal notation of `n`.
pub fn decimal_text(n: u64) -> (r: String)
    ensures
        r@ == decimal(n as nat),
{
    let mut out = String::new();
    push_decimal(&mut out, n);
    assert(out@ =~= decimal(n as nat));
    out
}

/// The characters as a vector.
pub fn chars_of(s: &str) -> (r: Vec<char>)
    ensures
        r@ == s@,
{
    let mut out: Vec<char> = Vec::new();
    for c in it: s.chars()
        invariant
            out@ == it.seq().take(it.index() as int),
            it.seq() == s@,
    {
        out.push(c);
        assert(out@ =~= it.seq().take(it.index() as int + 1));
    }
    assert(out@ =~= s@);
    out
}

/// The first `n` characters.
pub fn first_chars(s: &str, n: usize) -> (r: String)
    requires
        n <= s@.len(),
    ensures
        r@ == s@.take(n as int),
{
    let part = s.substring_char(0, n);
    assert(s@.subrange(0, n as int) =~= s@.take(n as int));
    part.to_owned()
}

/// `name` inside the directory `dir`: an absolute name stands for itself, and a
/// separator is put between the two unless `dir` is empty or ends in one.
pub open spec fn path_text(dir: Seq<char>, name: Seq<char>) -> Seq<char> {
    if name.len() > 0 && name[0] == '/' {
        name
    } else if dir.len() == 0 || dir.last() == '/' {
        dir + name
    } else {
        dir.push('/') + name
    }
}

/// `name` inside the directory `dir`.
pub fn path_join(dir: &str, name: &str) -> (r: String)
    ensures
        r@ == path_text(dir@, name@),
{
    let n: usize = name.unicode_len();
    if n > 0 && name.get_char(0) == '/' {
        name.to_owned()
    } else {
        let d: usize = dir.unicode_len();
        let mut out = dir.to_owned();
        if d > 0 && dir.get_char(d - 1) != '/' {
            out.push('/');
        }
        out.append(name);
        out
    }
}

/// The string is one or more decimal digits.
pub open spec fn all_digits(s: Seq<char>) -> bool {
    s.len() > 0 && forall|i: int| 0 <= i < s.len() ==> '0' <= #[trigger] s[i] <= '9'
}

/// The number that a string of digits spells.
pub open spec fn digits_value(s: Seq<char>) -> nat
    decreases s.len(),
{
    if s.len() == 0 {
        0
    } else {
        10 * digits_value(s.drop_last()) + (s.last() as int - '0' as int) as nat
    }
}

/// A string without its leading plus sign, if it has one.
pub open spec fn unsigned(s: Seq<char>) -> Seq<char> {
    if s.len() > 0 && s[0] == '+' {
        s.skip(1)
    } else {
        s
    }
}

/// The index that a string spells: digits, perhaps behind a plus sign, that fit.
pub open spec fn parsed_size(s: Seq<char>) -> Option<usize> {
    if all_digits(unsigned(s)) && digits_value(unsigned(s)) <= usize::MAX {
        Some(digits_value(unsigned(s)) as usize)
    } else {
        None
    }
}

proof fn more_digits_spell_more(s: Seq<char>, n: int)
    requires
        0 <= n <= s.len(),
        all_digits(s),
    ensures
        digits_value(s.take(n)) <= digits_value(s),
    decreases s.len() - n,
{
    if n == s.len() {
        assert(s.take(n) =~= s);
    } else {
        more_digits_spell_more(s, n + 1);
        assert(s.take(n + 1).drop_last() =~= s.take(n));
    }
}

/// The index that the characters from `from` on spell.
pub fn parse_size(chars: &Vec<char>, from: usize) -> (r: Option<usize>)
    requires
        from <= chars@.len(),
    ensures
        r == parsed_size(chars@.skip(from as int)),
{
    let ghost s = chars@.skip(from as int);
    let start: usize = if from < chars.len() && chars[from] == '+' {
        from + 1
    } else {
        from
    };
    let ghost d = unsigned(s);
    proof {
        assert(d =~= chars@.skip(start as int));
    }
    if start == chars.len() {
        return None;
    }
    let mut value: usize = 0;
    for i in start..chars.len()
        invariant
            start <= i <= chars@.len(),
            d == chars@.skip(start as int),
            s == chars@.skip(from as int),
            d == unsigned(s),
            start < chars@.len(),
            forall|k: int| 0 <= k < i - start ==> '0' <= #[trigger] d[k] <= '9',
            value == digits_value(d.take(i - start)),
    {
        let c = chars[i];
        assert(c == d[i - start]);
        if c < '0' || c > '9' {
            return None;
        }
        let v: usize = (c as u32 - 48) as usize;
        proof {
            assert(d.take(i - start + 1).drop_last() =~= d.take(i - start));
            if all_digits(d) {
                more_digits_spell_more(d, i - start + 1);
            }
        }
        if value > usize::MAX / 10 || 10 * value > usize::MAX - v {
            return None;
        }
        value = 10 * value + v;
    }
    assert(d.take(d.len() as int) =~= d);
    Some(value)
}

/// `true` when one of the strings is `wanted`.
pub fn contains_text(v: &Vec<String>, wanted: &str) -> (r: bool)
    ensures
        r == texts(v@).contains(wanted@),
{
    let key = wanted.to_owned();
    for i in 0..v.len()
        invariant
            key@ == wanted@,
            forall|j: int| 0 <= j < i ==> #[trigger] texts(v@)[j] != wanted@,
    {
        if v[i] == key {
            assert(texts(v@)[i as int] == wanted@);
            return true;
        }
    }
    false
}

/// Reading a number's decimal notation gives the number.
pub proof fn decimal_reads_back(n: nat)
    ensures
        all_digits(decimal(n)),
        digits_value(decimal(n)) == n,
    decreases n,
{
    if n < 10 {
        let s = seq![digit(n as int)];
        assert(s.drop_last() =~= Seq::empty());
        assert(digits_value(s.drop_last()) == 0);
        assert(s.last() == digit(n as int));
    } else {
        decimal_reads_back(n / 10);
        let s = decimal(n / 10).push(digit((n % 10) as int));
        assert(s.drop_last() =~= decimal(n / 10));
        assert(s.last() == digit((n % 10) as int));
        assert forall|i: int| 0 <= i < s.len() implies '0' <= #[trigger] s[i] <= '9' by {
            if i < s.len() - 1 {
                assert(s[i] == decimal(n / 10)[i]);
            }
        }
    }
}

/// Different numbers have different decimal notations.
pub proof fn decimal_is_injective(a: nat, b: nat)
    requires
        decimal(a) == decimal(b),
    ensures
        a == b,
{
    decimal_reads_back(a);
    decimal_reads_back(b);
}

/// `a` comes before `b` in dictionary order of the characters.
pub open spec fn text_before(a: Seq<char>, b: Seq<char>) -> bool
    decreases a.len(),
{
    if b.len() == 0 {
        false
    } else if a.len() == 0 {
        true
    } else if a[0] != b[0] {
        a[0] < b[0]
    } else {
        text_before(a.drop_first(), b.drop_first())
    }
}

/// Dictionary order is asymmetric.
pub proof fn text_before_is_asymmetric(a: Seq<char>, b: Seq<char>)
    ensures
        !(text_before(a, b) && text_before(b, a)),
    decreases a.len(),
{
    if a.len() > 0 && b.len() > 0 && a[0] == b[0] {
        text_before_is_asymmetric(a.drop_first(), b.drop_first());
    }
}

/// Not coming before is transitive.
pub proof fn not_text_before_is_transitive(a: Seq<char>, b: Seq<char>, c: Seq<char>)
    requires
        !text_before(a, b),
        !text_before(b, c),
    ensures
        !text_before(a, c),
    decreases a.len(),
{
    if a.len() > 0 && b.len() > 0 && c.len() > 0 && a[0] == b[0] && b[0] == c[0] {
        not_text_before_is_transitive(a.drop_first(), b.drop_first(), c.drop_first());
    }
}

/// Two strings of which neither comes first are equal.
pub proof fn text_order_is_total(a: Seq<char>, b: Seq<char>)
    requires
        !text_before(a, b),
        !text_before(b, a),
    ensures
        a == b,
    decreases a.len(),
{
    if a.len() > 0 && b.len() > 0 {
        text_order_is_total(a.drop_first(), b.drop_first());
        assert(a =~= seq![a[0]] + a.drop_first());
        assert(b =~= seq![b[0]] + b.drop_first());
    } else {
        assert(a =~= b);
    }
}

/// `true` when `a` comes before `b` in dictionary order.
pub fn is_text_before(a: &str, b: &str) -> (r: bool)
    ensures
        r == text_before(a@, b@),
{
    let x = chars_of(a);
    let y = chars_of(b);
    let mut i: usize = 0;
    proof {
        assert(x@.skip(0) =~= x@);
        assert(y@.skip(0) =~= y@);
    }
    while i < x.len() && i < y.len()
        invariant
            x@ == a@,
            y@ == b@,
            i <= x@.len(),
            i <= y@.len(),
            text_before(a@, b@) == text_before(x@.skip(i as int), y@.skip(i as int)),
        decreases x@.len() - i,
    {
        if x[i] != y[i] {
            return x[i] < y[i];
        }
        proof {
            assert(x@.skip(i as int).drop_first() =~= x@.skip(i as int + 1));
            assert(y@.skip(i as int).drop_first() =~= y@.skip(i as int + 1));
        }
        i = i + 1;
    }
    i < y.len()
}

/// Bytes that a character takes in UTF-8.
pub open spec fn char_bytes(c: char) -> nat {
    if (c as int) < 0x80 {
        1
    } else if (c as int) < 0x800 {
        2
    } else if (c as int) < 0x10000 {
        3
    } else {
        4
    }
}

/// Bytes that a string takes in UTF-8.
pub open spec fn byte_len(s: Seq<char>) -> nat
    decreases s.len(),
{
    if s.len() == 0 {
        0
    } else {
        byte_len(s.drop_last()) + char_bytes(s.last())
    }
}

/// The characters before byte `n`: all of them when there are not that many
/// bytes.
pub open spec fn before_byte(s: Seq<char>, n: nat) -> Seq<char> {
    if byte_len(s) <= n {
        s
    } else {
        s.take(choose|k: int| 0 <= k <= s.len() && #[trigger] byte_len(s.take(k)) == n)
    }
}

/// The string has no more than `n` bytes, or a character starts at byte `n`.
pub open spec fn splits_at_byte(s: Seq<char>, n: nat) -> bool {
    byte_len(s) <= n || exists|k: int| 0 <= k <= s.len() && #[trigger] byte_len(s.take(k)) == n
}

proof fn longer_takes_more_bytes(s: Seq<char>, a: int, b: int)
    requires
        0 <= a < b <= s.len(),
    ensures
        byte_len(s.take(a)) < byte_len(s.take(b)),
    decreases b - a,
{
    assert(s.take(b).drop_last() =~= s.take(b - 1));
    if a < b - 1 {
        longer_takes_more_bytes(s, a, b - 1);
    }
}

fn char_width(c: char) -> (r: usize)
    ensures
        r == char_bytes(c),
{
    let n: u32 = c as u32;
    if n < 0x80 {
        1
    } else if n < 0x800 {
        2
    } else if n < 0x10000 {
        3
    } else {
        4
    }
}

/// The characters before byte `n`.
pub fn prefix_bytes(s: &str, n: usize) -> (r: String)
    requires
        splits_at_byte(s@, n as nat),
        n <= usize::MAX - 4,
    ensures
        r@ == before_byte(s@, n as nat),
{
    let chars = chars_of(s);
    let mut out = String::new();
    let mut used: usize = 0;
    for i in 0..chars.len()
        invariant
            chars@ == s@,
            out@ == s@.take(i as int),
            used == byte_len(s@.take(i as int)),
            splits_at_byte(s@, n as nat),
            used <= n,
            n <= usize::MAX - 4,
    {
        let c = chars[i];
        let width: usize = char_width(c);
        proof {
            assert(s@.take(i as int + 1).drop_last() =~= s@.take(i as int));
            assert(s@.take(s@.len() as int) =~= s@);
            if i + 1 < s@.len() {
                longer_takes_more_bytes(s@, i as int + 1, s@.len() as int);
            }
            longer_takes_more_bytes(s@, i as int, i as int + 1);
        }
        if used + width > n {
            proof {
                let k = choose|k: int|
                    0 <= k <= s@.len() && #[trigger] byte_len(s@.take(k)) == n;
                if k < i {
                    longer_takes_more_bytes(s@, k, i as int);
                }
                if k > i {
                    if k > i + 1 {
                        longer_takes_more_bytes(s@, i as int + 1, k);
                    }
                }
                assert(k == i);
            }
            return out;
        }
        out.push(c);
        used = used + width;
        assert(out@ =~= s@.take(i as int + 1));
    }
    assert(s@.take(s@.len() as int) =~= s@);
    out
}

/// A Unicode white-space character.
pub open spec fn is_space(c: char) -> bool {
    let n = c as int;
    9 <= n <= 13 || n == 32 || n == 0x85 || n == 0xa0 || n == 0x1680 || 0x2000 <= n <= 0x200a || n
        == 0x2028 || n == 0x2029 || n == 0x202f || n == 0x205f || n == 0x3000
}

fn space(c: char) -> (r: bool)
    ensures
        r == is_space(c),
{
    let n: u32 = c as u32;
    (9 <= n && n <= 13) || n == 32 || n == 0x85 || n == 0xa0 || n == 0x1680 || (0x2000 <= n && n
        <= 0x200a) || n == 0x2028 || n == 0x2029 || n == 0x202f || n == 0x205f || n == 0x3000
}

/// `s` without the characters at its end that `drop` holds of.
pub open spec fn trimmed_end(s: Seq<char>, drop: spec_fn(char) -> bool) -> Seq<char>
    decreases s.len(),
{
    if s.len() > 0 && drop(s.last()) {
        trimmed_end(s.drop_last(), drop)
    } else {
        s
    }
}

/// `s` without the characters at its start that `drop` holds of.
pub open spec fn trimmed_start(s: Seq<char>, drop: spec_fn(char) -> bool) -> Seq<char>
    decreases s.len(),
{
    if s.len() > 0 && drop(s[0]) {
        trimmed_start(s.drop_first(), drop)
    } else {
        s
    }
}

/// `s` without the characters at both ends that `drop` holds of.
pub open spec fn trimmed(s: Seq<char>, drop: spec_fn(char) -> bool) -> Seq<char> {
    trimmed_end(trimmed_start(s, drop), drop)
}

/// `s` without white space at both ends.
pub open spec fn bare(s: Seq<char>) -> Seq<char> {
    trimmed(s, |c: char| is_space(c))
}

/// `s` without white space at both ends.
pub fn trim(s: &str) -> (r: String)
    ensures
        r@ == bare(s@),
{
    let chars = chars_of(s);
    let ghost drop = |c: char| is_space(c);
    let mut start: usize = 0;
    assert(s@.skip(0) =~= s@);
    while start < chars.len() && space(chars[start])
        invariant
            chars@ == s@,
            drop == (|c: char| is_space(c)),
            start <= chars@.len(),
            trimmed_start(s@, drop) == trimmed_start(s@.skip(start as int), drop),
        decreases chars@.len() - start,
    {
        assert(s@.skip(start as int).drop_first() =~= s@.skip(start as int + 1));
        start = start + 1;
    }
    let ghost rest = s@.skip(start as int);
    assert(trimmed_start(rest, drop) == rest);
    let mut end: usize = chars.len();
    assert(s@.subrange(start as int, end as int) =~= rest);
    while end > start && space(chars[end - 1])
        invariant
            chars@ == s@,
            drop == (|c: char| is_space(c)),
            start <= end <= chars@.len(),
            trimmed_end(rest, drop) == trimmed_end(s@.subrange(start as int, end as int), drop),
        decreases end - start,
    {
        assert(s@.subrange(start as int, end as int).drop_last() =~= s@.subrange(
            start as int,
            end as int - 1,
        ));
        end = end - 1;
    }
    let mut out = String::new();
    for i in start..end
        invariant
            chars@ == s@,
            start <= i <= end <= chars@.len(),
            out@ == s@.subrange(start as int, i as int),
    {
        out.push(chars[i]);
        assert(out@ =~= s@.subrange(start as int, i as int + 1));
    }
    out
}

/// `s` starts with `prefix`.
pub open spec fn has_prefix(s: Seq<char>, prefix: Seq<char>) -> bool {
    s.len() >= prefix.len() && s.take(prefix.len() as int) == prefix
}

/// `true` when the characters of `s` start with `prefix`.
pub fn starts_with(s: &str, prefix: &str) -> (r: bool)
    ensures
        r == has_prefix(s@, prefix@),
{
    let n: usize = prefix.unicode_len();
    if s.unicode_len() < n {
        return false;
    }
    let head = first_chars(s, n);
    let wanted = prefix.to_owned();
    head == wanted
}

/// The characters of `s` from `n` on.
pub fn chars_from(s: &str, n: usize) -> (r: String)
    requires
        n <= s@.len(),
    ensures
        r@ == s@.skip(n as int),
{
    let part = s.substring_char(n, s.unicode_len());
    assert(s@.subrange(n as int, s@.len() as int) =~= s@.skip(n as int));
    part.to_owned()
}

/// Where `c` first occurs in `s` from `from` on; the length when it does not.
pub open spec fn first_at(s: Seq<char>, c: char, from: int) -> int
    decreases s.len() - from,
{
    if from < 0 || from >= s.len() {
        s.len() as int
    } else if s[from] == c {
        from
    } else {
        first_at(s, c, from + 1)
    }
}

/// Where `c` first occurs in the characters; the length when it does not.
pub fn find_char(chars: &Vec<char>, c: char) -> (r: usize)
    ensures
        r == first_at(chars@, c, 0),
        r <= chars@.len(),
{
    let mut i: usize = 0;
    while i < chars.len()
        invariant
            i <= chars@.len(),
            first_at(chars@, c, 0) == first_at(chars@, c, i as int),
        decreases chars@.len() - i,
    {
        if chars[i] == c {
            return i;
        }
        i = i + 1;
    }
    i
}

/// `part` occurs in `s`.
pub open spec fn has_part(s: Seq<char>, part: Seq<char>) -> bool {
    exists|i: int|
        0 <= i <= s.len() - part.len() && #[trigger] s.subrange(i, i + part.len()) == part
}

/// `true` when `part` occurs in `s`.
pub fn contains_part(s: &str, part: &str) -> (r: bool)
    ensures
        r == has_part(s@, part@),
{
    let text = chars_of(s);
    let wanted = chars_of(part);
    if wanted.len() > text.len() {
        return false;
    }
    let total: usize = text.len();
    let last: usize = total - wanted.len();
    let mut i: usize = 0;
    while i <= last
        invariant
            text@ == s@,
            wanted@ == part@,
            wanted@.len() <= text@.len(),
            total == text@.len(),
            last == text@.len() - wanted@.len(),
            i <= last + 1,
            forall|k: int| 0 <= k < i ==> #[trigger] s@.subrange(k, k + part@.len()) != part@,
        decreases last + 1 - i,
    {
        let mut same = true;
        for j in 0..wanted.len()
            invariant
                text@ == s@,
                wanted@ == part@,
                wanted@.len() <= text@.len(),
                total == text@.len(),
                last == text@.len() - wanted@.len(),
                i <= last,
                same == forall|k: int| 0 <= k < j ==> text@[i + k] == #[trigger] wanted@[k],
        {
            same = same && text[i + j] == wanted[j];
        }
        if same {
            assert(s@.subrange(i as int, i + part@.len()) =~= part@);
            return true;
        }
        proof {
            if s@.subrange(i as int, i + part@.len()) == part@ {
                assert forall|k: int| 0 <= k < wanted@.len() implies text@[i + k]
                    == #[trigger] wanted@[k] by {
                    assert(s@.subrange(i as int, i + part@.len())[k] == part@[k]);
                }
            }
        }
        if i == last {
            return false;
        }
        i = i + 1;
    }
    false
}

/// Where two texts first differ, the smaller character comes first; a text comes
/// before whatever continues it.
pub proof fn the_first_difference_decides(a: Seq<char>, b: Seq<char>, k: int)
    requires
        0 <= k <= a.len(),
        k <= b.len(),
        forall|i: int| 0 <= i < k ==> a[i] == b[i],
        k < a.len() && k < b.len() ==> a[k] != b[k],
    ensures
        k < a.len() && k < b.len() ==> (text_before(a, b) <==> a[k] < b[k]),
        k == a.len() ==> (text_before(a, b) <==> k < b.len()),
        k == b.len() ==> !text_before(a, b),
    decreases k,
{
    if k > 0 {
        let c = a.drop_first();
        let d = b.drop_first();
        assert forall|i: int| 0 <= i < k - 1 implies c[i] == d[i] by {
            assert(c[i] == a[i + 1] && d[i] == b[i + 1]);
        }
        the_first_difference_decides(c, d, k - 1);
        assert(a[0] == b[0]);
        if k < a.len() && k < b.len() {
            assert(c[k - 1] == a[k] && d[k - 1] == b[k]);
        }
    }
}

proof fn starts_are_trimmed(s: Seq<char>, drop: spec_fn(char) -> bool) -> (a: int)
    ensures
        0 <= a <= s.len(),
        trimmed_start(s, drop) == s.skip(a),
        forall|i: int| 0 <= i < a ==> drop(#[trigger] s[i]),
        a < s.len() ==> !drop(s[a]),
    decreases s.len(),
{
    if s.len() > 0 && drop(s[0]) {
        let rest = s.drop_first();
        let a = starts_are_trimmed(rest, drop);
        assert(rest.skip(a) =~= s.skip(a + 1));
        assert forall|i: int| 0 <= i < a + 1 implies drop(#[trigger] s[i]) by {
            if i > 0 {
                assert(rest[i - 1] == s[i]);
            }
        }
        if a < rest.len() {
            assert(rest[a] == s[a + 1]);
        }
        a + 1
    } else {
        assert(s.skip(0) =~= s);
        0
    }
}

proof fn ends_are_trimmed(s: Seq<char>, drop: spec_fn(char) -> bool) -> (n: int)
    ensures
        0 <= n <= s.len(),
        trimmed_end(s, drop) == s.take(n),
        forall|i: int| n <= i < s.len() ==> drop(#[trigger] s[i]),
        n > 0 ==> !drop(s[n - 1]),
    decreases s.len(),
{
    if s.len() > 0 && drop(s.last()) {
        let rest = s.drop_last();
        let n = ends_are_trimmed(rest, drop);
        assert(rest.take(n) =~= s.take(n));
        assert forall|i: int| n <= i < s.len() implies drop(#[trigger] s[i]) by {
            if i < rest.len() {
                assert(rest[i] == s[i]);
            }
        }
        n
    } else {
        assert(s.take(s.len() as int) =~= s);
        s.len() as int
    }
}

/// The part of a text between two places, with nothing but droppable characters
/// around it and none at either end of it.
pub open spec fn is_core(
    s: Seq<char>,
    drop: spec_fn(char) -> bool,
    core: Seq<char>,
    a: int,
    b: int,
) -> bool {
    &&& 0 <= a <= b <= s.len()
    &&& core == s.subrange(a, b)
    &&& forall|i: int| 0 <= i < a ==> drop(#[trigger] s[i])
    &&& forall|i: int| b <= i < s.len() ==> drop(#[trigger] s[i])
    &&& a < b ==> !drop(s[a]) && !drop(s[b - 1])
}

/// Trimming takes away droppable characters at both ends, all of them, and nothing
/// between them.
pub proof fn trimming_keeps_the_core(s: Seq<char>, drop: spec_fn(char) -> bool)
    ensures
        exists|a: int, b: int| is_core(s, drop, trimmed(s, drop), a, b),
{
    let a = starts_are_trimmed(s, drop);
    let rest = s.skip(a);
    let n = ends_are_trimmed(rest, drop);
    assert(rest.take(n) =~= s.subrange(a, a + n));
    assert forall|i: int| a + n <= i < s.len() implies drop(#[trigger] s[i]) by {
        assert(rest[i - a] == s[i]);
    }
    if n > 0 {
        assert(rest[n - 1] == s[a + n - 1]);
        assert(rest[0] == s[a]);
    }
    assert(is_core(s, drop, trimmed(s, drop), a, a + n));
}

/// A number is read back off its decimal notation, with a plus sign before it or
/// without one.
pub proof fn sizes_read_back(n: usize)
    ensures
        parsed_size(decimal(n as nat)) == Some(n),
        parsed_size(seq!['+'] + decimal(n as nat)) == Some(n),
{
    decimal_reads_back(n as nat);
    assert(decimal(n as nat)[0] != '+');
    assert((seq!['+'] + decimal(n as nat)).skip(1) =~= decimal(n as nat));
}

/// A text with anything but digits behind its sign spells no number, and neither
/// does one without any.
pub proof fn only_digits_spell_a_size(s: Seq<char>, i: int)
    requires
        0 < i < s.len() || (i == 0 && s.len() > 0 && s[0] != '+'),
        !('0' <= s[i] <= '9'),
    ensures
        parsed_size(s) is None,
        parsed_size(Seq::empty()) is None,
{
    if s[0] == '+' {
        assert(s.skip(1)[i - 1] == s[i]);
    }
}

/// A name inside a directory ends in the name, and an absolute one is the name.
pub proof fn paths_end_in_the_name(dir: Seq<char>, name: Seq<char>)
    ensures
        ({
            let path = path_text(dir, name);
            &&& path.len() >= name.len()
            &&& path.skip(path.len() - name.len()) == name
            &&& name.len() > 0 && name[0] == '/' ==> path == name
            &&& !(name.len() > 0 && name[0] == '/') ==> has_prefix(path, dir)
            &&& !(name.len() > 0 && name[0] == '/') && dir.len() > 0 ==> path[path.len()
                - name.len() - 1] == '/'
            &&& !(name.len() > 0 && name[0] == '/') && dir.len() > 0 && dir.last() == '/'
                ==> path.len() == dir.len() + name.len()
        }),
{
    let path = path_text(dir, name);
    assert(path.skip(path.len() - name.len()) =~= name);
    if !(name.len() > 0 && name[0] == '/') {
        assert(path.take(dir.len() as int) =~= dir);
    }
}

/// A character is looked for from the front.
pub proof fn the_first_occurrence_is_found(s: Seq<char>, c: char, from: int)
    requires
        0 <= from <= s.len(),
    ensures
        from <= first_at(s, c, from) <= s.len(),
        first_at(s, c, from) < s.len() ==> s[first_at(s, c, from)] == c,
        forall|i: int| from <= i < first_at(s, c, from) ==> #[trigger] s[i] != c,
    decreases s.len() - from,
{
    if from < s.len() && s[from] != c {
        the_first_occurrence_is_found(s, c, from + 1);
    }
}

} // verus!
