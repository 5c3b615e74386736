//! Text as a sequence of characters, and what that text weighs in bytes.
use vstd::prelude::*;
use vstd::string::*;
use vstd::utf8::*;

verus! {

/// Appending one character to a `String` (`String::push`): the string then
/// holds what it held before, followed by that character.
pub assume_specification[ String::push ](s: &mut String, ch: char)
    ensures
        final(s)@ == old(s)@.push(ch),
;

/// The texts that a list of strings holds.
pub open spec fn texts(strings: Seq<String>) -> Seq<Seq<char>> {
    strings.map_values(|s: String| s@)
}

/// How many bytes `s` takes in UTF-8.
pub open spec fn byte_len(s: Seq<char>) -> nat {
    encode_utf8(s).len()
}

/// How many bytes one character takes in UTF-8.
pub open spec fn char_width(c: char) -> nat {
    encode_scalar(c as u32).len()
}

/// All parts one after another.
pub open spec fn concat(parts: Seq<Seq<char>>) -> Seq<char>
    decreases parts.len(),
{
    if parts.len() == 0 {
        Seq::empty()
    } else {
        concat(parts.drop_last()) + parts.last()
    }
}

/// `pattern` stands in `s` at position `at`.
pub open spec fn occurs_at(s: Seq<char>, pattern: Seq<char>, at: int) -> bool {
    0 <= at && at + pattern.len() <= s.len() && s.subrange(at, at + pattern.len()) == pattern
}

/// `at` is the first position of `pattern` in `s`.
pub open spec fn first_at(s: Seq<char>, pattern: Seq<char>, at: int) -> bool {
    occurs_at(s, pattern, at) && forall|i: int| 0 <= i < at ==> !occurs_at(s, pattern, i)
}

/// `pattern` stands somewhere in `s`.
pub open spec fn occurs(s: Seq<char>, pattern: Seq<char>) -> bool {
    exists|i: int| occurs_at(s, pattern, i)
}

/// Where `pattern` first stands in `s`, when it does.
pub open spec fn first_index(s: Seq<char>, pattern: Seq<char>) -> int {
    choose|i: int| first_at(s, pattern, i)
}

pub proof fn lemma_first_unique(s: Seq<char>, pattern: Seq<char>, at: int)
    requires
        first_at(s, pattern, at),
    ensures
        occurs(s, pattern),
        first_index(s, pattern) == at,
{
    let i = first_index(s, pattern);
    assert(first_at(s, pattern, i));
    if i < at {
        assert(!occurs_at(s, pattern, i));
    }
    if at < i {
        assert(!occurs_at(s, pattern, at));
    }
}

/// `s` split at each `separator`, found from the left and without overlap.
pub open spec fn split_on(s: Seq<char>, separator: Seq<char>) -> Seq<Seq<char>>
    decreases s.len(),
{
    if separator.len() > 0 && occurs(s, separator) {
        let at = first_index(s, separator);
        proof {
            lemma_first_exists(s, separator, choose|i: int| occurs_at(s, separator, i));
        }
        seq![s.take(at)] + split_on(s.skip(at + separator.len()), separator)
    } else {
        seq![s]
    }
}

/// Where a pattern occurs at all, it has a first position.
pub proof fn lemma_first_exists(s: Seq<char>, pattern: Seq<char>, at: int)
    requires
        occurs_at(s, pattern, at),
    ensures
        occurs(s, pattern),
        first_at(s, pattern, first_index(s, pattern)),
        first_index(s, pattern) <= at,
    decreases at,
{
    if exists|i: int| 0 <= i < at && occurs_at(s, pattern, i) {
        let i = choose|i: int| 0 <= i < at && occurs_at(s, pattern, i);
        lemma_first_exists(s, pattern, i);
    } else {
        assert(first_at(s, pattern, at));
        lemma_first_unique(s, pattern, at);
    }
}

/// `needle` stands in `hay` at position `at`.
pub fn matches_at(hay: &Vec<char>, needle: &Vec<char>, at: usize) -> (found: bool)
    requires
        at <= hay.len(),
    ensures
        found == occurs_at(hay@, needle@, at as int),
{
    if needle.len() > hay.len() - at {
        return false;
    }
    let mut k: usize = 0;
    while k < needle.len()
        invariant
            at + needle.len() <= hay.len(),
            k <= needle.len(),
            forall|j: int| 0 <= j < k ==> hay@[at + j] == needle@[j],
        decreases needle.len() - k,
    {
        if hay[at + k] != needle[k] {
            proof {
                assert(hay@.subrange(at as int, at + needle@.len())[k as int] != needle@[k as int]);
            }
            return false;
        }
        k += 1;
    }
    proof {
        assert(hay@.subrange(at as int, at + needle@.len()) =~= needle@);
    }
    true
}

/// The first position of `needle` in `hay` at or after `from`.
pub fn find_from(hay: &Vec<char>, needle: &Vec<char>, from: usize) -> (found: Option<usize>)
    requires
        from <= hay.len(),
    ensures
        match found {
            Some(at) => from <= at && at + needle.len() <= hay.len() && first_at(
                hay@.skip(from as int),
                needle@,
                at - from,
            ),
            None => !occurs(hay@.skip(from as int), needle@),
        },
{
    let ghost rest = hay@.skip(from as int);
    let mut i: usize = from;
    loop
        invariant
            from <= i <= hay.len(),
            rest == hay@.skip(from as int),
            forall|j: int| 0 <= j < i - from ==> !occurs_at(rest, needle@, j),
        decreases hay.len() - i,
    {
        let here = matches_at(hay, needle, i);
        proof {
            if i + needle@.len() <= hay@.len() {
                assert(rest.subrange(i - from, i - from + needle@.len()) =~= hay@.subrange(
                    i as int,
                    i + needle@.len(),
                ));
            }
            assert(here == occurs_at(rest, needle@, i - from));
        }
        if here {
            return Some(i);
        }
        if i == hay.len() {
            proof {
                assert forall|j: int| !occurs_at(rest, needle@, j) by {
                    if 0 <= j && j < i - from {
                        assert(!occurs_at(rest, needle@, j));
                    }
                }
            }
            return None;
        }
        i += 1;
    }
}

/// `s` split at each `separator`, found from the left and without overlap.
pub fn split_text(s: &str, separator: &Vec<char>) -> (parts: Vec<String>)
    requires
        separator.len() > 0,
    ensures
        texts(parts@) == split_on(s@, separator@),
{
    let chars = chars_of(s);
    let mut parts: Vec<String> = Vec::new();
    let mut start: usize = 0;
    proof {
        assert(chars@.skip(0) =~= chars@);
        assert(texts(parts@) + split_on(s@, separator@) =~= split_on(s@, separator@));
    }
    loop
        invariant
            chars@ == s@,
            separator.len() > 0,
            start <= chars.len(),
            texts(parts@) + split_on(chars@.skip(start as int), separator@) == split_on(
                s@,
                separator@,
            ),
        decreases chars.len() - start,
    {
        let ghost rest = chars@.skip(start as int);
        let ghost before = parts@;
        match find_from(&chars, separator, start) {
            Some(at) => {
                let part = string_of(&chars, start, at);
                proof {
                    lemma_first_unique(rest, separator@, at - start);
                    assert(part@ =~= rest.take(at - start));
                    assert(rest.skip(at - start + separator@.len()) =~= chars@.skip(
                        at + separator@.len(),
                    ));
                }
                parts.push(part);
                start = at + separator.len();
                proof {
                    assert(texts(parts@) =~= texts(before).push(part@));
                    assert(texts(parts@) + split_on(chars@.skip(start as int), separator@)
                        =~= texts(before) + (seq![part@] + split_on(
                        chars@.skip(start as int),
                        separator@,
                    )));
                }
            },
            None => {
                let part = string_of(&chars, start, chars.len());
                parts.push(part);
                proof {
                    assert(part@ =~= rest);
                    assert(texts(parts@) =~= texts(before) + seq![rest]);
                }
                return parts;
            },
        }
    }
}

pub proof fn lemma_char_width(c: char)
    ensures
        1 <= char_width(c) <= 4,
{
    char_is_scalar(c);
}

/// The encoding of two texts in a row is their two encodings in a row.
pub proof fn lemma_encode_append(a: Seq<char>, b: Seq<char>)
    ensures
        encode_utf8(a + b) == encode_utf8(a) + encode_utf8(b),
        byte_len(a + b) == byte_len(a) + byte_len(b),
    decreases a.len(),
{
    if a.len() == 0 {
        assert(a + b =~= b);
        assert(encode_utf8(a) + encode_utf8(b) =~= encode_utf8(b));
    } else {
        assert((a + b).drop_first() =~= a.drop_first() + b);
        lemma_encode_append(a.drop_first(), b);
        assert(encode_utf8(a + b) =~= encode_utf8(a) + encode_utf8(b));
    }
}

/// Equal encodings come from equal texts.
pub proof fn lemma_encode_injective(a: Seq<char>, b: Seq<char>)
    requires
        encode_utf8(a) == encode_utf8(b),
    ensures
        a == b,
{
    encode_utf8_decode_utf8(a);
    encode_utf8_decode_utf8(b);
}

pub proof fn lemma_byte_len_push(s: Seq<char>, c: char)
    ensures
        byte_len(s.push(c)) == byte_len(s) + char_width(c),
{
    assert(s.push(c) =~= s + seq![c]);
    lemma_encode_append(s, seq![c]);
    reveal_with_fuel(encode_utf8, 2);
    assert(seq![c].drop_first() =~= Seq::<char>::empty());
    assert(encode_utf8(seq![c]) =~= encode_scalar(c as u32));
}

/// A text has at least as many bytes as characters.
pub proof fn lemma_byte_len_bound(s: Seq<char>)
    ensures
        s.len() <= byte_len(s),
    decreases s.len(),
{
    if s.len() > 0 {
        lemma_byte_len_bound(s.drop_last());
        assert(s =~= s.drop_last().push(s.last()));
        lemma_byte_len_push(s.drop_last(), s.last());
        lemma_char_width(s.last());
    }
}

pub proof fn lemma_concat_push(parts: Seq<Seq<char>>, last: Seq<char>)
    ensures
        concat(parts.push(last)) == concat(parts) + last,
{
    assert(parts.push(last).drop_last() =~= parts);
}

pub proof fn lemma_concat_append(a: Seq<Seq<char>>, b: Seq<Seq<char>>)
    ensures
        concat(a + b) == concat(a) + concat(b),
    decreases b.len(),
{
    if b.len() == 0 {
        assert(a + b =~= a);
        assert(concat(a) + concat(b) =~= concat(a));
    } else {
        assert((a + b).drop_last() =~= a + b.drop_last());
        lemma_concat_append(a, b.drop_last());
        assert(concat(a + b) =~= concat(a) + concat(b));
    }
}

/// The length of `s` in bytes.
pub fn byte_length(s: &str) -> (n: usize)
    ensures
        n == byte_len(s@),
{
    s.as_bytes().len()
}

/// The width of `c` in UTF-8.
pub fn width_of(c: char) -> (n: usize)
    ensures
        n == char_width(c),
        1 <= n <= 4,
{
    proof {
        lemma_char_width(c);
    }
    let v: u32 = c as u32;
    if v < 0x80 {
        1
    } else if v < 0x800 {
        2
    } else if v < 0x10000 {
        3
    } else {
        4
    }
}

/// The characters of `s`.
pub fn chars_of(s: &str) -> (chars: Vec<char>)
    ensures
        chars@ == s@,
{
    let mut chars: Vec<char> = Vec::new();
    for c in it: s.chars()
        invariant
            it.seq() == s@,
            chars@ == s@.take(it.index() as int),
    {
        proof {
            assert(s@.take(it.index() as int + 1) =~= s@.take(it.index() as int).push(s@[it.index() as int]));
        }
        chars.push(c);
    }
    proof {
        assert(s@.take(s@.len() as int) =~= s@);
    }
    chars
}

/// The text made of the characters from `from` up to `to`.
pub fn string_of(chars: &Vec<char>, from: usize, to: usize) -> (s: String)
    requires
        from <= to <= chars.len(),
    ensures
        s@ == chars@.subrange(from as int, to as int),
{
    let mut s = String::new();
    let mut i: usize = from;
    while i < to
        invariant
            from <= i <= to <= chars.len(),
            s@ == chars@.subrange(from as int, i as int),
        decreases to - i,
    {
        proof {
            assert(chars@.subrange(from as int, i as int + 1) =~= chars@.subrange(
                from as int,
                i as int,
            ).push(chars@[i as int]));
        }
        s.push(chars[i]);
        i += 1;
    }
    s
}

/// The decimal digits of `n`.
pub open spec fn decimal(n: nat) -> Seq<char>
    decreases n,
{
    if n < 10 {
        seq![(('0' as int) + n) as char]
    } else {
        decimal(n / 10).push((('0' as int) + n % 10) as char)
    }
}

/// `n` in decimal digits.
pub fn decimal_text(n: u64) -> (s: String)
    ensures
        s@ == decimal(n as nat),
    decreases n,
{
    let digit = ascii_digit((n % 10) as u8);
    if n < 10 {
        let mut s = String::new();
        s.push(digit);
        proof {
            assert(s@ =~= decimal(n as nat));
        }
        s
    } else {
        let mut s = decimal_text(n / 10);
        s.push(digit);
        s
    }
}

fn ascii_digit(d: u8) -> (c: char)
    requires
        d < 10,
    ensures
        c == (('0' as int) + d) as char,
{
    (48 + d) as char
}

/// Whether `a` and `b` hold the same text.
pub fn same(a: &str, b: &str) -> (r: bool)
    ensures
        r == (a@ == b@),
{
    let x = a.as_bytes();
    let y = b.as_bytes();
    if x.len() != y.len() {
        return false;
    }
    let mut i: usize = 0;
    while i < x.len()
        invariant
            x@ == encode_utf8(a@),
            y@ == encode_utf8(b@),
            x.len() == y.len(),
            i <= x.len(),
            forall|j: int| 0 <= j < i ==> x@[j] == y@[j],
        decreases x.len() - i,
    {
        if x[i] != y[i] {
            return false;
        }
        i += 1;
    }
    proof {
        assert(x@ =~= y@);
        lemma_encode_injective(a@, b@);
    }
    true
}

/// `a` followed by `b`.
pub fn text2(a: &str, b: &str) -> (s: String)
    ensures
        s@ == a@ + b@,
{
    let mut s = a.to_owned();
    s.append(b);
    s
}

/// `a`, then `b`, then `c`.
pub fn text3(a: &str, b: &str, c: &str) -> (s: String)
    ensures
        s@ == a@ + b@ + c@,
{
    let mut s = text2(a, b);
    s.append(c);
    s
}

/// `s` begins with `c`.
pub open spec fn begins_with(s: Seq<char>, c: char) -> bool {
    s.len() > 0 && s[0] == c
}

/// `a` comes before `b` in the order of characters.
pub open spec fn precedes(a: Seq<char>, b: Seq<char>) -> bool
    decreases a.len(),
{
    if b.len() == 0 {
        false
    } else if a.len() == 0 {
        true
    } else if a[0] != b[0] {
        (a[0] as int) < (b[0] as int)
    } else {
        precedes(a.drop_first(), b.drop_first())
    }
}

/// The order of texts is total.
pub proof fn law_text_order_is_total(a: Seq<char>, b: Seq<char>)
    ensures
        !precedes(a, a),
        precedes(a, b) ==> !precedes(b, a),
        precedes(a, b) || precedes(b, a) || a == b,
    decreases a.len(),
{
    if a.len() > 0 && b.len() > 0 && a[0] == b[0] {
        law_text_order_is_total(a.drop_first(), b.drop_first());
        if a.drop_first() == b.drop_first() {
            assert(a =~= seq![a[0]] + a.drop_first());
            assert(b =~= seq![b[0]] + b.drop_first());
        }
    }
    if a.len() > 0 {
        law_text_order_is_total(a.drop_first(), a.drop_first());
    }
    if a.len() == 0 && b.len() == 0 {
        assert(a =~= b);
    }
}

/// Whether `a` comes before `b` in the order of characters.
pub fn is_before(a: &str, b: &str) -> (r: bool)
    ensures
        r == precedes(a@, b@),
{
    let x = chars_of(a);
    let y = chars_of(b);
    let mut i: usize = 0;
    proof {
        assert(x@.skip(0) =~= x@);
        assert(y@.skip(0) =~= y@);
    }
    while i < x.len() && i < y.len()
        invariant
            x@ == a@,
            y@ == b@,
            i <= x.len(),
            i <= y.len(),
            precedes(a@, b@) == precedes(x@.skip(i as int), y@.skip(i as int)),
        decreases x.len() - i,
    {
        proof {
            assert(x@.skip(i as int).drop_first() =~= x@.skip(i + 1));
            assert(y@.skip(i as int).drop_first() =~= y@.skip(i + 1));
        }
        let c: char = x[i];
        let d: char = y[i];
        if c != d {
            let p: u32 = c as u32;
            let q: u32 = d as u32;
            proof {
                char_u32_cast(c, p);
                char_u32_cast(d, q);
                char_is_scalar(c);
                char_is_scalar(d);
                assert(p as int == c as int);
                assert(q as int == d as int);
            }
            return p < q;
        }
        i += 1;
    }
    i < y.len()
}

/// A whole number in decimal digits, with a minus sign where it is negative.
pub open spec fn signed_decimal(n: int) -> Seq<char> {
    if n >= 0 {
        decimal(n as nat)
    } else {
        seq!['-'] + decimal((-n) as nat)
    }
}

/// `n` in decimal digits.
pub fn signed_text(n: i64) -> (s: String)
    ensures
        s@ == signed_decimal(n as int),
{
    if n >= 0 {
        decimal_text(n as u64)
    } else {
        let size: u64 = (-(n + 1)) as u64 + 1;
        let digits = decimal_text(size);
        let mut s = String::new();
        s.push('-');
        s.append(digits.as_str());
        proof {
            assert(s@ =~= signed_decimal(n as int));
        }
        s
    }
}

} // verus!
