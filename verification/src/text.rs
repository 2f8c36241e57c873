//! Text as sequences of characters: the searches, splits and renderings the loader is written in.
//!
//! A string's view is its sequence of `char`s. Executable code reads a string into a `Vec<char>`
//! once and works on indices into it.

use vstd::prelude::*;

verus! {

/// `String::push`: the string grows by one character at its end.
pub assume_specification[ std::string::String::push ](s: &mut std::string::String, c: char)
    ensures
        final(s)@ == old(s)@.push(c),
;

/// What `String::from_utf8_lossy` makes of bytes.
pub uninterp spec fn lossy_utf8(bytes: Seq<u8>) -> Seq<char>;

/// `String::from_utf8_lossy`, owned: the text of bytes that are UTF-8, and some text for any other
/// bytes, which depends on them alone.
#[verifier::external_body]
pub(crate) fn from_utf8_lossy(bytes: &Vec<u8>) -> (r: String)
    ensures
        r@ == lossy_utf8(bytes@),
        vstd::utf8::valid_utf8(bytes@) ==> r@ == vstd::utf8::decode_utf8(bytes@),
{
    String::from_utf8_lossy(bytes).into_owned()
}

/// `String::from_utf16_lossy`: the text that the code units encode, with the replacement character
/// for each unpaired surrogate.
#[verifier::external_body]
pub(crate) fn from_utf16_lossy(units: &Vec<u16>) -> (r: String)
    ensures
        r@ == read_utf16(units@),
{
    String::from_utf16_lossy(units)
}

/// The text that code units encode in UTF-16, with the replacement character for each unpaired
/// surrogate.
pub open spec fn read_utf16(units: Seq<u16>) -> Seq<char>
    decreases units.len(),
{
    if units.len() == 0 {
        Seq::empty()
    } else if !(0xd800 <= units[0] <= 0xdfff) {
        seq![units[0] as char] + read_utf16(units.skip(1))
    } else if units[0] <= 0xdbff && units.len() >= 2 && 0xdc00 <= units[1] <= 0xdfff {
        seq![(0x1_0000 + (units[0] - 0xd800) * 0x400 + (units[1] - 0xdc00)) as char] + read_utf16(
            units.skip(2),
        )
    } else {
        seq!['\u{fffd}'] + read_utf16(units.skip(1))
    }
}

/// The text of bytes: what they encode in UTF-8, or what stands for bytes that are no UTF-8.
pub open spec fn read_utf8(bytes: Seq<u8>) -> Seq<char> {
    if vstd::utf8::valid_utf8(bytes) {
        vstd::utf8::decode_utf8(bytes)
    } else {
        lossy_utf8(bytes)
    }
}

/// The bytes of a text read as that text.
pub proof fn lemma_read_encoded(t: Seq<char>)
    ensures
        read_utf8(vstd::utf8::encode_utf8(t)) == t,
{
    vstd::utf8::encode_utf8_valid_utf8(t);
    vstd::utf8::encode_utf8_decode_utf8(t);
}

/// The views of a sequence of strings.
pub open spec fn texts(v: Seq<String>) -> Seq<Seq<char>> {
    Seq::new(v.len(), |i: int| v[i]@)
}

/// The view of an optional text.
pub open spec fn option_text(s: Option<String>) -> Option<Seq<char>> {
    match s {
        Some(s) => Some(s@),
        None => None,
    }
}

/// The views of a sequence of character vectors.
pub open spec fn rows(v: Seq<Vec<char>>) -> Seq<Seq<char>> {
    Seq::new(v.len(), |i: int| v[i]@)
}

/// The index of the first `c` in `s` at or after `i`; the length of `s` when there is none.
pub open spec fn pos_from(s: Seq<char>, c: char, i: int) -> int
    decreases s.len() - i,
{
    if i < 0 || i >= s.len() {
        s.len() as int
    } else if s[i] == c {
        i
    } else {
        pos_from(s, c, i + 1)
    }
}

/// Whether `p` stands in `s` at index `i`.
pub open spec fn occurs_at(s: Seq<char>, p: Seq<char>, i: int) -> bool {
    &&& 0 <= i
    &&& i + p.len() <= s.len()
    &&& s.subrange(i, i + p.len()) == p
}

/// Whether `p` stands anywhere in `s`.
pub open spec fn contains_text(s: Seq<char>, p: Seq<char>) -> bool {
    exists|i: int| #[trigger] occurs_at(s, p, i)
}

/// Whether `s` ends with `p`.
pub open spec fn ends_with(s: Seq<char>, p: Seq<char>) -> bool {
    occurs_at(s, p, s.len() - p.len())
}

/// The pieces of `s` between the separators, one more than there are separators.
pub open spec fn split(s: Seq<char>, sep: char) -> Seq<Seq<char>>
    decreases s.len(),
{
    let i = pos_from(s, sep, 0);
    if i < 0 || i >= s.len() {
        seq![s]
    } else {
        seq![s.take(i)] + split(s.skip(i + 1), sep)
    }
}

/// The pieces in order, with `sep` between each two.
pub open spec fn join(parts: Seq<Seq<char>>, sep: Seq<char>) -> Seq<char>
    decreases parts.len(),
{
    if parts.len() == 0 {
        seq![]
    } else if parts.len() == 1 {
        parts[0]
    } else {
        parts[0] + sep + join(parts.drop_first(), sep)
    }
}

/// The ASCII lower case of one character; any other character is itself.
pub open spec fn lower_char(c: char) -> char {
    if 'A' <= c <= 'Z' {
        (c as u32 + 32) as char
    } else {
        c
    }
}

/// The ASCII lower case of a text.
pub open spec fn lower(s: Seq<char>) -> Seq<char> {
    Seq::new(s.len(), |i: int| lower_char(s[i]))
}

/// The characters with the Unicode property White_Space.
#[verifier::opaque]
pub open spec fn white_space(c: char) -> bool {
    let n = c as u32;
    ||| 0x09 <= n <= 0x0d
    ||| n == 0x20
    ||| n == 0x85
    ||| n == 0xa0
    ||| n == 0x1680
    ||| 0x2000 <= n <= 0x200a
    ||| n == 0x2028
    ||| n == 0x2029
    ||| n == 0x202f
    ||| n == 0x205f
    ||| n == 0x3000
}

/// `s` without its leading white space.
pub open spec fn trim_start(s: Seq<char>) -> Seq<char>
    decreases s.len(),
{
    if s.len() > 0 && white_space(s[0]) {
        trim_start(s.drop_first())
    } else {
        s
    }
}

/// `s` without its trailing white space.
pub open spec fn trim_end(s: Seq<char>) -> Seq<char>
    decreases s.len(),
{
    if s.len() > 0 && white_space(s.last()) {
        trim_end(s.drop_last())
    } else {
        s
    }
}

/// `s` without white space at either end.
pub open spec fn trim(s: Seq<char>) -> Seq<char> {
    trim_end(trim_start(s))
}

/// The decimal digit `d`.
pub open spec fn digit(d: nat) -> char {
    (48 + d) as char
}

/// The decimal digits of `n`, without leading zeros.
pub open spec fn decimal(n: nat) -> Seq<char>
    decreases n,
{
    if n < 10 {
        seq![digit(n)]
    } else {
        decimal(n / 10).push(digit(n % 10))
    }
}

/// A hexadecimal digit, in upper case.
pub open spec fn upper_hex_digit(d: nat) -> char {
    if d < 10 {
        (48 + d) as char
    } else {
        (55 + d) as char
    }
}

/// The hexadecimal digits of `n` in upper case, without leading zeros.
pub open spec fn upper_hex(n: nat) -> Seq<char>
    decreases n,
{
    if n < 16 {
        seq![upper_hex_digit(n)]
    } else {
        upper_hex(n / 16).push(upper_hex_digit(n % 16))
    }
}

/// `s` with zeros in front, up to `width` characters.
pub open spec fn zero_padded(s: Seq<char>, width: nat) -> Seq<char> {
    if s.len() >= width {
        s
    } else {
        Seq::new((width - s.len()) as nat, |i: int| '0') + s
    }
}

/// The decimal digits of `n`, with a minus sign in front where it is negative.
pub open spec fn signed_decimal(n: int) -> Seq<char> {
    if n < 0 {
        seq!['-'] + decimal((-n) as nat)
    } else {
        decimal(n as nat)
    }
}

/// The position found is an occurrence, and nothing before it is one.
pub proof fn lemma_pos_from(s: Seq<char>, c: char, i: int)
    requires
        0 <= i <= s.len(),
    ensures
        i <= pos_from(s, c, i) <= s.len(),
        pos_from(s, c, i) < s.len() ==> s[pos_from(s, c, i)] == c,
        forall|j: int| i <= j < pos_from(s, c, i) ==> s[j] != c,
    decreases s.len() - i,
{
    if i < s.len() && s[i] != c {
        lemma_pos_from(s, c, i + 1);
    }
}

/// The first occurrence is the only index with those properties.
pub proof fn lemma_pos_from_unique(s: Seq<char>, c: char, i: int, p: int)
    requires
        0 <= i <= p <= s.len(),
        p < s.len() ==> s[p] == c,
        forall|j: int| i <= j < p ==> s[j] != c,
    ensures
        pos_from(s, c, i) == p,
{
    lemma_pos_from(s, c, i);
    let q = pos_from(s, c, i);
    if q < p {
        assert(s[q] != c);
    }
    if p < q {
        assert(s[p] != c);
    }
}

/// Numbers with the same digits are the same.
pub proof fn lemma_decimal_injective(a: nat, b: nat)
    requires
        decimal(a) == decimal(b),
    ensures
        a == b,
    decreases a,
{
    lemma_decimal_last(a);
    lemma_decimal_last(b);
    if a >= 10 && b >= 10 {
        assert(decimal(a).drop_last() == decimal(b).drop_last());
        lemma_decimal_injective(a / 10, b / 10);
    }
}

proof fn lemma_decimal_last(n: nat)
    ensures
        decimal(n).len() >= 1,
        n >= 10 ==> decimal(n).len() >= 2 && decimal(n).drop_last() == decimal(n / 10),
        n < 10 ==> decimal(n).len() == 1,
        decimal(n).last() as int == 48 + n % 10,
    decreases n,
{
    if n >= 10 {
        lemma_decimal_last(n / 10);
        assert(decimal(n).drop_last() =~= decimal(n / 10));
    }
}

/// Whether `c` is not in `s`.
pub open spec fn lacks(s: Seq<char>, c: char) -> bool {
    forall|i: int| 0 <= i < s.len() ==> s[i] != c
}

/// No piece of a split holds the separator, and there is at least one piece. A character that the
/// text lacks, the pieces lack.
pub proof fn lemma_split_lacks(s: Seq<char>, sep: char, c: char)
    ensures
        split(s, sep).len() > 0,
        forall|i: int| 0 <= i < split(s, sep).len() ==> lacks(#[trigger] split(s, sep)[i], sep),
        lacks(s, c) ==> forall|i: int|
            0 <= i < split(s, sep).len() ==> lacks(#[trigger] split(s, sep)[i], c),
    decreases s.len(),
{
    lemma_pos_from(s, sep, 0);
    let p = pos_from(s, sep, 0);
    if p < s.len() {
        lemma_split_lacks(s.skip(p + 1), sep, c);
        let rest = split(s.skip(p + 1), sep);
        assert forall|i: int| 0 <= i < split(s, sep).len() implies lacks(
            #[trigger] split(s, sep)[i],
            sep,
        ) by {
            if i > 0 {
                assert(split(s, sep)[i] == rest[i - 1]);
            }
        }
        if lacks(s, c) {
            assert forall|i: int| 0 <= i < split(s, sep).len() implies lacks(
                #[trigger] split(s, sep)[i],
                c,
            ) by {
                if i > 0 {
                    assert(split(s, sep)[i] == rest[i - 1]);
                }
            }
        }
    }
}

/// Splitting undoes joining.
pub proof fn lemma_split_join(parts: Seq<Seq<char>>, sep: char)
    requires
        parts.len() > 0,
        forall|i: int| 0 <= i < parts.len() ==> lacks(#[trigger] parts[i], sep),
    ensures
        split(join(parts, seq![sep]), sep) == parts,
    decreases parts.len(),
{
    let s = join(parts, seq![sep]);
    let p = parts[0].len() as int;
    if parts.len() == 1 {
        lemma_pos_from_unique(s, sep, 0, p);
        assert(seq![s] =~= parts);
    } else {
        let rest = parts.drop_first();
        assert forall|i: int| 0 <= i < rest.len() implies lacks(#[trigger] rest[i], sep) by {
            assert(rest[i] == parts[i + 1]);
        }
        lemma_split_join(rest, sep);
        lemma_pos_from_unique(s, sep, 0, p);
        assert(s.take(p) =~= parts[0]);
        assert(s.skip(p + 1) =~= join(rest, seq![sep]));
        assert(seq![parts[0]] + rest =~= parts);
    }
}

/// A joined text lacks what its pieces and the separator lack.
pub proof fn lemma_join_lacks(parts: Seq<Seq<char>>, sep: Seq<char>, c: char)
    requires
        lacks(sep, c),
        forall|i: int| 0 <= i < parts.len() ==> lacks(#[trigger] parts[i], c),
    ensures
        lacks(join(parts, sep), c),
    decreases parts.len(),
{
    if parts.len() > 1 {
        let rest = parts.drop_first();
        assert forall|i: int| 0 <= i < rest.len() implies lacks(#[trigger] rest[i], c) by {
            assert(rest[i] == parts[i + 1]);
        }
        lemma_join_lacks(rest, sep, c);
        assert(lacks(parts[0], c));
    } else if parts.len() == 1 {
        assert(lacks(parts[0], c));
    }
}

/// A piece behind one more separator is one more piece of the split.
pub proof fn lemma_split_push(s: Seq<char>, sep: char, last: Seq<char>)
    requires
        lacks(last, sep),
    ensures
        split(s.push(sep) + last, sep) == split(s, sep).push(last),
    decreases s.len(),
{
    let t = s.push(sep) + last;
    lemma_pos_from(s, sep, 0);
    let p = pos_from(s, sep, 0);
    lemma_pos_from_unique(t, sep, 0, p);
    if p < s.len() {
        lemma_split_push(s.skip(p + 1), sep, last);
        assert(t.take(p) =~= s.take(p));
        assert(t.skip(p + 1) =~= s.skip(p + 1).push(sep) + last);
        assert(split(t, sep) =~= split(s, sep).push(last));
    } else {
        assert(t.take(p) =~= s);
        assert(t.skip(p + 1) =~= last);
        lemma_pos_from_unique(last, sep, 0, last.len() as int);
        assert(split(last, sep) == seq![last]);
        assert(split(s, sep) == seq![s]);
        assert(split(t, sep) == seq![s] + seq![last]);
        assert(seq![s] + seq![last] =~= seq![s].push(last));
    }
}

/// The characters of `s`, in order.
pub fn chars_of(s: &str) -> (r: Vec<char>)
    ensures
        r@ == s@,
{
    let mut r: Vec<char> = Vec::new();
    for c in it: s.chars()
        invariant
            r@ == it.seq().take(it.index() as int),
            it.seq() == s@,
    {
        r.push(c);
        assert(it.seq().take(it.index() as int).push(c) == it.seq().take(it.index() + 1));
    }
    assert(s@.take(s@.len() as int) == s@);
    r
}

/// The string of the characters `cs`.
pub fn string_of(cs: &Vec<char>) -> (r: String)
    ensures
        r@ == cs@,
{
    let mut r = String::new();
    for i in 0..cs.len()
        invariant
            r@ == cs@.take(i as int),
    {
        r.push(cs[i]);
        assert(cs@.take(i as int).push(cs[i as int]) == cs@.take(i + 1));
    }
    assert(cs@.take(cs@.len() as int) == cs@);
    r
}

/// The characters from `from` up to, not with, `to`.
pub fn piece(cs: &Vec<char>, from: usize, to: usize) -> (r: Vec<char>)
    requires
        from <= to <= cs@.len(),
    ensures
        r@ == cs@.subrange(from as int, to as int),
{
    let mut r: Vec<char> = Vec::new();
    for i in from..to
        invariant
            from <= to <= cs@.len(),
            r@ == cs@.subrange(from as int, i as int),
    {
        r.push(cs[i]);
        assert(cs@.subrange(from as int, i as int).push(cs[i as int]) == cs@.subrange(
            from as int,
            i + 1,
        ));
    }
    r
}

/// Whether two texts are the same.
pub fn same_text(a: &str, b: &str) -> (r: bool)
    ensures
        r == (a@ == b@),
{
    a.to_owned() == b.to_owned()
}

/// Whether two character vectors are the same.
pub fn same_chars(a: &Vec<char>, b: &Vec<char>) -> (r: bool)
    ensures
        r == (a@ == b@),
{
    assert(a@.subrange(0, a@.len() as int) == a@);
    a.len() == b.len() && stands_at(a, b, 0)
}

/// Whether `p` stands in `s` at index `at`.
pub fn stands_at(s: &Vec<char>, p: &Vec<char>, at: usize) -> (r: bool)
    ensures
        r == occurs_at(s@, p@, at as int),
{
    if at > s.len() || p.len() > s.len() - at {
        return false;
    }
    for i in 0..p.len()
        invariant
            at + p@.len() <= s@.len() <= usize::MAX,
            forall|j: int| 0 <= j < i ==> s@[at + j] == p@[j],
    {
        if s[at + i] != p[i] {
            assert(s@.subrange(at as int, at + p@.len())[i as int] != p@[i as int]);
            return false;
        }
    }
    assert(s@.subrange(at as int, at + p@.len()) == p@);
    true
}

/// Whether `s` starts with `p`.
pub fn starts_with(s: &Vec<char>, p: &Vec<char>) -> (r: bool)
    ensures
        r == p@.is_prefix_of(s@),
{
    stands_at(s, p, 0)
}

/// Whether the text `s` starts with `p`.
pub fn text_starts_with(s: &str, p: &str) -> (r: bool)
    ensures
        r == p@.is_prefix_of(s@),
{
    starts_with(&chars_of(s), &chars_of(p))
}

/// Whether `s` ends with `p`.
pub fn has_ending(s: &Vec<char>, p: &Vec<char>) -> (r: bool)
    ensures
        r == ends_with(s@, p@),
{
    p.len() <= s.len() && stands_at(s, p, s.len() - p.len())
}

/// Whether `p` stands anywhere in `s`.
pub fn has_infix(s: &Vec<char>, p: &Vec<char>) -> (r: bool)
    ensures
        r == contains_text(s@, p@),
{
    if p.len() > s.len() {
        return false;
    }
    let last: usize = s.len() - p.len();
    let mut i: usize = 0;
    while i < last
        invariant
            i <= last,
            last + p@.len() == s@.len(),
            forall|j: int| 0 <= j < i ==> !occurs_at(s@, p@, j),
        decreases last - i,
    {
        if stands_at(s, p, i) {
            return true;
        }
        i = i + 1;
    }
    stands_at(s, p, last)
}

/// The index of the first `c` at or after `from`; the length when there is none.
pub fn find_char(s: &Vec<char>, c: char, from: usize) -> (r: usize)
    requires
        from <= s@.len(),
    ensures
        r == pos_from(s@, c, from as int),
        from <= r <= s@.len(),
{
    let mut i: usize = from;
    while i < s.len() && s[i] != c
        invariant
            from <= i <= s@.len(),
            pos_from(s@, c, from as int) == pos_from(s@, c, i as int),
        decreases s@.len() - i,
    {
        i = i + 1;
    }
    i
}

/// The pieces of `s` between the separators.
pub fn pieces(s: &Vec<char>, sep: char) -> (r: Vec<Vec<char>>)
    ensures
        rows(r@) == split(s@, sep),
{
    let mut out: Vec<Vec<char>> = Vec::new();
    let mut start: usize = 0;
    assert(s@.skip(0) == s@);
    loop
        invariant
            start <= s@.len(),
            rows(out@) + split(s@.skip(start as int), sep) == split(s@, sep),
        decreases s@.len() - start,
    {
        let end: usize = find_char(s, sep, start);
        let ghost rest = s@.skip(start as int);
        proof {
            lemma_pos_from(s@, sep, start as int);
            lemma_pos_from_unique(rest, sep, 0, end - start);
            assert(rest.take(end - start) == s@.subrange(start as int, end as int));
        }
        let ghost before = out@;
        out.push(piece(s, start, end));
        assert(rows(out@) == rows(before).push(s@.subrange(start as int, end as int)));
        if end == s.len() {
            assert(rest.take(end - start) == rest);
            assert(rows(before) + seq![rest] == rows(out@));
            return out;
        }
        proof {
            assert(rest.skip(end - start + 1) == s@.skip(end + 1));
            assert(rows(before) + (seq![rest.take(end - start)] + split(s@.skip(end + 1), sep))
                == rows(out@) + split(s@.skip(end + 1), sep));
        }
        start = end + 1;
    }
}

/// Joining one more piece at the end.
pub proof fn lemma_join_push(parts: Seq<Seq<char>>, sep: Seq<char>, last: Seq<char>)
    ensures
        parts.len() > 0 ==> join(parts.push(last), sep) == join(parts, sep) + sep + last,
        parts.len() == 0 ==> join(parts.push(last), sep) == last,
    decreases parts.len(),
{
    if parts.len() == 1 {
        assert(parts.push(last).drop_first() == seq![last]);
        assert(join(seq![last], sep) == last);
    } else if parts.len() > 1 {
        lemma_join_push(parts.drop_first(), sep, last);
        assert(parts.push(last).drop_first() == parts.drop_first().push(last));
        assert(parts[0] + sep + (join(parts.drop_first(), sep) + sep + last) == parts[0] + sep
            + join(parts.drop_first(), sep) + sep + last);
    }
}

/// The pieces in order, with `sep` between each two.
pub fn joined(parts: &Vec<Vec<char>>, sep: &str) -> (r: String)
    ensures
        r@ == join(rows(parts@), sep@),
{
    let mut out = String::new();
    for i in 0..parts.len()
        invariant
            out@ == join(rows(parts@).take(i as int), sep@),
    {
        let ghost all = rows(parts@);
        proof {
            lemma_join_push(all.take(i as int), sep@, all[i as int]);
            assert(all.take(i as int).push(all[i as int]) == all.take(i + 1));
        }
        if i > 0 {
            out.append(sep);
        }
        out.append(string_of(&parts[i]).as_str());
    }
    assert(rows(parts@).take(parts@.len() as int) == rows(parts@));
    out
}

/// The strings in order, with `sep` between each two.
pub fn joined_texts(parts: &Vec<String>, sep: &str) -> (r: String)
    ensures
        r@ == join(texts(parts@), sep@),
{
    let mut out = String::new();
    for i in 0..parts.len()
        invariant
            out@ == join(texts(parts@).take(i as int), sep@),
    {
        let ghost all = texts(parts@);
        proof {
            lemma_join_push(all.take(i as int), sep@, all[i as int]);
            assert(all.take(i as int).push(all[i as int]) == all.take(i + 1));
        }
        if i > 0 {
            out.append(sep);
        }
        out.append(parts[i].as_str());
    }
    assert(texts(parts@).take(parts@.len() as int) == texts(parts@));
    out
}

/// The number of bytes of `s` in UTF-8.
pub open spec fn byte_len(s: Seq<char>) -> nat {
    vstd::utf8::encode_utf8(s).len()
}

/// The number of bytes of `s` in UTF-8.
pub fn byte_len_of(s: &str) -> (r: usize)
    ensures
        r == byte_len(s@),
{
    s.as_bytes().len()
}

/// The bytes of `s` in UTF-8.
pub fn bytes_of(s: &str) -> (r: Vec<u8>)
    ensures
        r@ == vstd::utf8::encode_utf8(s@),
{
    let bytes = s.as_bytes();
    let mut r: Vec<u8> = Vec::new();
    for i in 0..bytes.len()
        invariant
            r@ == bytes@.take(i as int),
    {
        r.push(bytes[i]);
        assert(bytes@.take(i + 1) =~= bytes@.take(i as int).push(bytes@[i as int]));
    }
    assert(bytes@.take(bytes@.len() as int) =~= bytes@);
    r
}

/// Whether a text is empty.
pub fn is_blank(s: &str) -> (r: bool)
    ensures
        r == (s@.len() == 0),
{
    let n: usize = chars_of(s).len();
    n == 0
}

/// Two texts, one after the other.
pub fn concat2(a: &str, b: &str) -> (r: String)
    ensures
        r@ == a@ + b@,
{
    let mut r = a.to_owned();
    r.append(b);
    r
}

/// Three texts, one after the other.
pub fn concat3(a: &str, b: &str, c: &str) -> (r: String)
    ensures
        r@ == a@ + b@ + c@,
{
    let mut r = concat2(a, b);
    r.append(c);
    r
}

/// Five texts, one after the other.
pub fn concat5(a: &str, b: &str, c: &str, d: &str, e: &str) -> (r: String)
    ensures
        r@ == a@ + b@ + c@ + d@ + e@,
{
    let mut r = concat3(a, b, c);
    r.append(d);
    r.append(e);
    r
}

/// Whether `c` is white space.
pub fn is_white_space(c: char) -> (r: bool)
    ensures
        r == white_space(c),
{
    proof {
        reveal(white_space);
    }
    let n: u32 = c as u32;
    (0x09 <= n && n <= 0x0d) || n == 0x20 || n == 0x85 || n == 0xa0 || n == 0x1680 || (0x2000 <= n
        && n <= 0x200a) || n == 0x2028 || n == 0x2029 || n == 0x202f || n == 0x205f || n == 0x3000
}

/// `s` without white space at either end.
pub fn trimmed(s: &Vec<char>) -> (r: Vec<char>)
    ensures
        r@ == trim(s@),
{
    let mut from: usize = 0;
    assert(s@.skip(0) == s@);
    while from < s.len() && is_white_space(s[from])
        invariant
            from <= s@.len(),
            trim_start(s@) == trim_start(s@.skip(from as int)),
        decreases s@.len() - from,
    {
        assert(s@.skip(from as int).drop_first() == s@.skip(from + 1));
        from = from + 1;
    }
    let ghost head = s@.skip(from as int);
    assert(trim_start(s@) == head);
    let mut to: usize = s.len();
    assert(s@.subrange(from as int, to as int) == head);
    while to > from && is_white_space(s[to - 1])
        invariant
            from <= to <= s@.len(),
            trim_end(head) == trim_end(s@.subrange(from as int, to as int)),
        decreases to,
    {
        assert(s@.subrange(from as int, to as int).drop_last() == s@.subrange(
            from as int,
            to - 1,
        ));
        to = to - 1;
    }
    piece(s, from, to)
}

/// The ASCII lower case of a text.
pub fn lowered(s: &Vec<char>) -> (r: Vec<char>)
    ensures
        r@ == lower(s@),
{
    let mut r: Vec<char> = Vec::new();
    for i in 0..s.len()
        invariant
            r@ == lower(s@).take(i as int),
    {
        let c: char = s[i];
        let d: char = if 'A' <= c && c <= 'Z' {
            ((c as u8) + 32) as char
        } else {
            c
        };
        r.push(d);
        assert(lower(s@).take(i as int).push(d) == lower(s@).take(i + 1));
    }
    assert(lower(s@).take(s@.len() as int) == lower(s@));
    r
}

/// The decimal digits of `n`.
pub fn decimal_text(n: u64) -> (r: String)
    ensures
        r@ == decimal(n as nat),
    decreases n,
{
    let mut r = if n < 10 {
        String::new()
    } else {
        decimal_text(n / 10)
    };
    let d: u8 = (n % 10) as u8;
    r.push((48 + d) as char);
    assert(r@ == decimal(n as nat));
    r
}

/// The decimal digits of `n`, with a minus sign in front where it is negative.
pub fn signed_decimal_text(n: i32) -> (r: String)
    ensures
        r@ == signed_decimal(n as int),
{
    let wide: i64 = n as i64;
    if wide < 0 {
        let r = concat2("-", decimal_text((-wide) as u64).as_str());
        proof {
            reveal_strlit("-");
            assert("-"@ =~= seq!['-']);
        }
        r
    } else {
        decimal_text(wide as u64)
    }
}

/// The hexadecimal digits of `n` in upper case.
pub fn upper_hex_text(n: u64) -> (r: String)
    ensures
        r@ == upper_hex(n as nat),
    decreases n,
{
    let mut r = if n < 16 {
        String::new()
    } else {
        upper_hex_text(n / 16)
    };
    let d: u8 = (n % 16) as u8;
    if d < 10 {
        r.push((48 + d) as char);
    } else {
        r.push((55 + d) as char);
    }
    assert(r@ == upper_hex(n as nat));
    r
}

/// `s` with zeros in front, up to `width` characters.
pub fn pad_zeros(s: &str, width: usize) -> (r: String)
    ensures
        r@ == zero_padded(s@, width as nat),
{
    let n: usize = chars_of(s).len();
    let mut r = String::new();
    let missing: usize = if n < width {
        width - n
    } else {
        0
    };
    for i in 0..missing
        invariant
            r@ == Seq::new(i as nat, |k: int| '0'),
    {
        r.push('0');
        assert(r@ =~= Seq::new((i + 1) as nat, |k: int| '0'));
    }
    r.append(s);
    assert(r@ =~= zero_padded(s@, width as nat));
    r
}

/// A text that stands somewhere in another has something, or nothing, on either side; one that the
/// other ends with has nothing behind it.
pub proof fn law_contained_texts_have_two_sides(s: Seq<char>, p: Seq<char>)
    ensures
        contains_text(s, p) <==> exists|a: Seq<char>, b: Seq<char>| s == #[trigger] (a + p + b),
        ends_with(s, p) <==> exists|a: Seq<char>| s == #[trigger] (a + p),
        forall|a: Seq<char>, b: Seq<char>| contains_text(#[trigger] (a + p + b), p),
        forall|a: Seq<char>| ends_with(#[trigger] (a + p), p),
{
    assert forall|a: Seq<char>, b: Seq<char>| contains_text(#[trigger] (a + p + b), p) by {
        assert((a + p + b).subrange(a.len() as int, (a.len() + p.len()) as int) =~= p);
        assert(occurs_at(a + p + b, p, a.len() as int));
    }
    assert forall|a: Seq<char>| ends_with(#[trigger] (a + p), p) by {
        assert((a + p).subrange(a.len() as int, (a.len() + p.len()) as int) =~= p);
    }
    if contains_text(s, p) {
        let i = choose|i: int| #[trigger] occurs_at(s, p, i);
        let (a, b) = (s.take(i), s.skip(i + p.len()));
        assert(s =~= a + p + b) by {
            assert(p == s.subrange(i, i + p.len()));
        }
    }
    if ends_with(s, p) {
        let a = s.take(s.len() - p.len());
        assert(s =~= a + p) by {
            assert(p == s.subrange(s.len() - p.len(), s.len() as int));
        }
    }
}

/// The pieces of a text hold no separator, and with separators between them they are the text.
pub proof fn law_pieces_make_up_the_text(s: Seq<char>, sep: char)
    ensures
        split(s, sep).len() > 0,
        forall|i: int, j: int|
            0 <= i < split(s, sep).len() && 0 <= j < split(s, sep)[i].len() ==> #[trigger] split(
                s,
                sep,
            )[i][j] != sep,
        join(split(s, sep), seq![sep]) == s,
    decreases s.len(),
{
    lemma_split_lacks(s, sep, sep);
    lemma_pos_from(s, sep, 0);
    let p = pos_from(s, sep, 0);
    if p < s.len() {
        let rest = s.skip(p + 1);
        law_pieces_make_up_the_text(rest, sep);
        let parts = split(s, sep);
        assert(parts.drop_first() =~= split(rest, sep));
        assert(parts[0] == s.take(p));
        assert(s =~= s.take(p) + seq![sep] + rest);
    } else {
        assert(split(s, sep) =~= seq![s]);
    }
}

/// Joined texts stand one behind the other with the separator between each two, and nowhere else.
pub proof fn law_joined_texts_are_separated(a: Seq<Seq<char>>, b: Seq<Seq<char>>, x: Seq<char>, sep: Seq<char>)
    ensures
        join(Seq::empty(), sep) == Seq::<char>::empty(),
        join(seq![x], sep) == x,
        a.len() > 0 && b.len() > 0 ==> join(a + b, sep) == join(a, sep) + sep + join(b, sep),
    decreases b.len(),
{
    assert(join(seq![x], sep) =~= x);
    if a.len() > 0 && b.len() > 0 {
        let d = b.drop_last();
        lemma_join_push(a + d, sep, b.last());
        lemma_join_push(d, sep, b.last());
        assert((a + d).push(b.last()) =~= a + b);
        assert(d.push(b.last()) =~= b);
        if d.len() > 0 {
            law_joined_texts_are_separated(a, d, x, sep);
            assert(join(a + b, sep) =~= join(a, sep) + sep + join(b, sep));
        } else {
            assert(a + d =~= a);
        }
    }
}

/// Lower case takes the letters A to Z to a to z, and leaves every other character as it is.
pub proof fn law_lower_case_is_ascii(s: Seq<char>, i: int)
    requires
        0 <= i < s.len(),
    ensures
        lower(s).len() == s.len(),
        65 <= s[i] as u32 <= 90 ==> lower(s)[i] as u32 == s[i] as u32 + 32,
        !(65 <= s[i] as u32 <= 90) ==> lower(s)[i] == s[i],
{
    lemma_lower_char(s[i]);
}

proof fn lemma_lower_char(c: char)
    ensures
        65 <= c as u32 <= 90 ==> lower_char(c) as u32 == c as u32 + 32,
        !(65 <= c as u32 <= 90) ==> lower_char(c) == c,
{
}

/// White space is tab to carriage return, space, next line, the no-break space and the Unicode spaces
/// and separators.
pub proof fn law_white_space_is_unicode(c: char)
    ensures
        white_space(c) <==> set![
            0x09u32,
            0x0a,
            0x0b,
            0x0c,
            0x0d,
            0x20,
            0x85,
            0xa0,
            0x1680,
            0x2000,
            0x2001,
            0x2002,
            0x2003,
            0x2004,
            0x2005,
            0x2006,
            0x2007,
            0x2008,
            0x2009,
            0x200a,
            0x2028,
            0x2029,
            0x202f,
            0x205f,
            0x3000,
        ].contains(c as u32),
{
    reveal(white_space);
}

/// Trimming takes white space, and nothing else, off both ends, until none is left there.
pub proof fn law_trimming_leaves_no_outer_white_space(s: Seq<char>)
    ensures
        exists|a: Seq<char>, b: Seq<char>|
            s == #[trigger] (a + trim(s) + b) && (forall|i: int|
                0 <= i < a.len() ==> white_space(#[trigger] a[i])) && (forall|i: int|
                0 <= i < b.len() ==> white_space(#[trigger] b[i])),
        trim(s).len() > 0 ==> !white_space(trim(s)[0]) && !white_space(trim(s).last()),
{
    let a = lemma_trim_start(s);
    let t = trim_start(s);
    let b = lemma_trim_end(t);
    assert(s =~= a + trim(s) + b);
    if trim(s).len() > 0 {
        assert(trim(s)[0] == t[0]);
    }
}

proof fn lemma_trim_start(s: Seq<char>) -> (a: Seq<char>)
    ensures
        s == a + trim_start(s),
        forall|i: int| 0 <= i < a.len() ==> white_space(#[trigger] a[i]),
        trim_start(s).len() > 0 ==> !white_space(trim_start(s)[0]),
    decreases s.len(),
{
    if s.len() > 0 && white_space(s[0]) {
        let rest = lemma_trim_start(s.drop_first());
        let a = seq![s[0]] + rest;
        assert(s =~= seq![s[0]] + s.drop_first());
        assert(a + trim_start(s) =~= seq![s[0]] + (rest + trim_start(s)));
        a
    } else {
        assert(s =~= Seq::<char>::empty() + s);
        Seq::empty()
    }
}

proof fn lemma_trim_end(s: Seq<char>) -> (b: Seq<char>)
    ensures
        s == trim_end(s) + b,
        forall|i: int| 0 <= i < b.len() ==> white_space(#[trigger] b[i]),
        trim_end(s).len() > 0 ==> !white_space(trim_end(s).last()),
    decreases s.len(),
{
    if s.len() > 0 && white_space(s.last()) {
        let rest = lemma_trim_end(s.drop_last());
        let b = rest.push(s.last());
        assert(s =~= s.drop_last().push(s.last()));
        assert(trim_end(s) + b =~= (trim_end(s) + rest).push(s.last()));
        b
    } else {
        assert(s =~= s + Seq::<char>::empty());
        Seq::empty()
    }
}

/// Decimal digits read from the left, each worth ten times what follows it, give the number; there is
/// no leading zero.
pub proof fn law_decimal_digits_give_the_number(n: nat)
    ensures
        decimal(n).len() > 0,
        forall|i: int| 0 <= i < decimal(n).len() ==> 48 <= #[trigger] decimal(n)[i] as int <= 57,
        decimal(n).len() > 1 ==> decimal(n)[0] as int != 48,
        decimal(n).fold_left(0int, |v: int, c: char| 10 * v + (c as int - 48)) == n,
    decreases n,
{
    let read = |v: int, c: char| 10 * v + (c as int - 48);
    lemma_decimal_last(n);
    reveal_with_fuel(Seq::fold_left, 2);
    if n >= 10 {
        law_decimal_digits_give_the_number(n / 10);
        let d = decimal(n / 10);
        assert(decimal(n).drop_last() =~= d);
        assert forall|i: int| 0 <= i < decimal(n).len() implies 48 <= #[trigger] decimal(n)[i] as int
            <= 57 by {
            if i < d.len() {
                assert(decimal(n)[i] == d[i]);
            }
        }
        assert(decimal(n)[0] == d[0]);
        if d.len() == 1 {
            assert(n / 10 != 0);
            lemma_decimal_last(n / 10);
            assert(d.last() == d[0]);
        }
        assert(decimal(n).fold_left(0int, read) == read(d.fold_left(0int, read), decimal(n).last()));
    } else {
        assert(decimal(n).drop_last() =~= Seq::empty());
        assert(decimal(n).last() == decimal(n)[0]);
        assert(decimal(n).fold_left(0int, read) == read(0int, decimal(n).last()));
    }
}

/// A negative number has a minus sign before the digits of its absolute value; no other has a sign.
pub proof fn law_negative_numbers_have_a_sign(n: nat)
    ensures
        signed_decimal(n as int) == decimal(n),
        n > 0 ==> signed_decimal(-n) == seq!['-'] + decimal(n),
{
}

/// The hexadecimal digits 0 to 9 and A to F.
pub proof fn law_hexadecimal_digits_are_upper_case(n: nat)
    ensures
        n < 16 ==> upper_hex(n) == seq!["0123456789ABCDEF"@[n as int]],
        n >= 16 ==> upper_hex(n) == upper_hex(n / 16) + seq!["0123456789ABCDEF"@[(n % 16) as int]],
{
    reveal_strlit("0123456789ABCDEF");
    lemma_hex_digit(n % 16);
    assert(n < 16 ==> n % 16 == n);
    if n >= 16 {
        assert(upper_hex(n) =~= upper_hex(n / 16) + seq![upper_hex_digit(n % 16)]);
    }
}

proof fn lemma_hex_digit(d: nat)
    requires
        d < 16,
    ensures
        upper_hex_digit(d) == "0123456789ABCDEF"@[d as int],
{
    reveal_strlit("0123456789ABCDEF");
    assert(d == 0 || d == 1 || d == 2 || d == 3 || d == 4 || d == 5 || d == 6 || d == 7 || d == 8
        || d == 9 || d == 10 || d == 11 || d == 12 || d == 13 || d == 14 || d == 15);
}

/// A padded text has zeros in front, just as many as its width lacks.
pub proof fn law_padding_is_zeros_in_front(s: Seq<char>, width: nat)
    ensures
        zero_padded(s, width).len() == if s.len() >= width {
            s.len()
        } else {
            width
        },
        zero_padded(s, width).skip(zero_padded(s, width).len() - s.len()) == s,
        forall|i: int|
            0 <= i < zero_padded(s, width).len() - s.len() ==> #[trigger] zero_padded(s, width)[i]
                == '0',
{
    let p = zero_padded(s, width);
    assert(p.skip(p.len() - s.len()) =~= s);
}

/// Code units outside the surrogates are characters of their own, a high surrogate with the low one
/// behind it is one character, and any other surrogate reads as the replacement character.
pub proof fn law_utf16_reads_unit_by_unit(u: u16, v: u16, rest: Seq<u16>)
    ensures
        read_utf16(Seq::empty()) == Seq::<char>::empty(),
        u < 0xd800 || u > 0xdfff ==> read_utf16(seq![u] + rest) == seq![u as char] + read_utf16(rest),
        0xd800 <= u <= 0xdbff && 0xdc00 <= v <= 0xdfff ==> read_utf16(seq![u, v] + rest) == seq![
            (0x1_0000 + (u - 0xd800) * 0x400 + (v - 0xdc00)) as char,
        ] + read_utf16(rest),
        0xdc00 <= u <= 0xdfff ==> read_utf16(seq![u] + rest) == seq!['\u{fffd}'] + read_utf16(rest),
        0xd800 <= u <= 0xdbff && !(rest.len() > 0 && 0xdc00 <= rest[0] <= 0xdfff) ==> read_utf16(
            seq![u] + rest,
        ) == seq!['\u{fffd}'] + read_utf16(rest),
{
    assert((seq![u] + rest).skip(1) =~= rest);
    assert((seq![u, v] + rest).skip(2) =~= rest);
    assert((seq![u] + rest)[0] == u);
    assert((seq![u, v] + rest)[0] == u);
    assert((seq![u, v] + rest)[1] == v);
    if rest.len() > 0 {
        assert((seq![u] + rest)[1] == rest[0]);
    }
}

/// Bytes that are UTF-8 read as what they encode: a text read from its own bytes is that text.
pub proof fn law_texts_survive_their_bytes(t: Seq<char>, bytes: Seq<u8>)
    ensures
        read_utf8(vstd::utf8::encode_utf8(t)) == t,
        vstd::utf8::valid_utf8(bytes) ==> vstd::utf8::encode_utf8(read_utf8(bytes)) == bytes,
        byte_len(t) == vstd::utf8::encode_utf8(t).len(),
{
    lemma_read_encoded(t);
    if vstd::utf8::valid_utf8(bytes) {
        vstd::utf8::decode_utf8_encode_utf8(bytes);
    }
}

/// Lists are read place by place.
pub proof fn law_views_keep_their_places(v: Seq<String>, w: Seq<Vec<char>>, s: Option<String>)
    ensures
        texts(v).len() == v.len(),
        forall|i: int| 0 <= i < v.len() ==> #[trigger] texts(v)[i] == v[i]@,
        rows(w).len() == w.len(),
        forall|i: int| 0 <= i < w.len() ==> #[trigger] rows(w)[i] == w[i]@,
        s is None <==> option_text(s) is None,
        s matches Some(t) ==> option_text(s) == Some(t@),
{
}

/// The place of a character is its first at or behind a place, or the end where there is none; a text
/// lacks a character that it does not contain.
pub proof fn law_places_are_of_the_first(s: Seq<char>, c: char, i: int)
    requires
        0 <= i <= s.len(),
    ensures
        i <= pos_from(s, c, i) <= s.len(),
        pos_from(s, c, i) < s.len() ==> s[pos_from(s, c, i)] == c,
        !s.subrange(i, pos_from(s, c, i)).contains(c),
        lacks(s, c) <==> !s.contains(c),
{
    lemma_pos_from(s, c, i);
    let part = s.subrange(i, pos_from(s, c, i));
    if part.contains(c) {
        let k = part.index_of(c);
        assert(part[k] == s[i + k]);
    }
    if s.contains(c) {
        let k = s.index_of(c);
        assert(s[k] == c);
    }
    assert forall|k: int| 0 <= k < s.len() && !s.contains(c) implies s[k] != c by {
        assert(s.contains(s[k]));
    }
}

/// What texts are compared by: all of their characters, their start, their end, or any part.
pub proof fn law_texts_are_compared_by_their_characters(
    a: &str,
    b: &str,
    s: &Vec<char>,
    p: &Vec<char>,
    same: bool,
    starts: bool,
    ends: bool,
    holds: bool,
    blank: bool,
)
    requires
        call_ensures(same_text, (a, b), same),
        call_ensures(text_starts_with, (a, b), starts),
        call_ensures(has_ending, (s, p), ends),
        call_ensures(has_infix, (s, p), holds),
        call_ensures(is_blank, (a,), blank),
    ensures
        same <==> a@ == b@,
        starts <==> exists|rest: Seq<char>| a@ == #[trigger] (b@ + rest),
        ends <==> exists|lead: Seq<char>| s@ == #[trigger] (lead + p@),
        holds <==> exists|lead: Seq<char>, rest: Seq<char>| s@ == #[trigger] (lead + p@ + rest),
        blank <==> a@ == Seq::<char>::empty(),
{
    law_contained_texts_have_two_sides(s@, p@);
    if starts {
        let rest = a@.skip(b@.len() as int);
        assert(a@ =~= b@ + rest);
    }
    if exists|rest: Seq<char>| a@ == #[trigger] (b@ + rest) {
        let rest = choose|rest: Seq<char>| a@ == #[trigger] (b@ + rest);
        assert(a@.subrange(0, b@.len() as int) =~= b@);
    }
    if blank {
        assert(a@ =~= Seq::empty());
    }
}

/// A text is parted and put together again, trimmed and put in lower case, character by character.
pub proof fn law_texts_are_parted_and_joined(
    s: &Vec<char>,
    sep: char,
    parts: Vec<Vec<char>>,
    whole: String,
    between: &str,
    cut: Vec<char>,
    low: Vec<char>,
)
    requires
        call_ensures(pieces, (s, sep), parts),
        call_ensures(joined, (&parts, between), whole),
        call_ensures(trimmed, (s,), cut),
        call_ensures(lowered, (s,), low),
    ensures
        between@ == seq![sep] ==> whole@ == s@,
        cut@ == trim(s@),
        low@ == lower(s@),
        parts@.len() > 0,
{
    law_pieces_make_up_the_text(s@, sep);
    assert(rows(parts@).len() == parts@.len());
}

/// Numbers are written in digits.
pub proof fn law_numbers_are_written_in_digits(
    n: u64,
    m: i32,
    decimals: String,
    signed: String,
    hex: String,
)
    requires
        call_ensures(decimal_text, (n,), decimals),
        call_ensures(signed_decimal_text, (m,), signed),
        call_ensures(upper_hex_text, (n,), hex),
    ensures
        decimals@.fold_left(0int, |v: int, c: char| 10 * v + (c as int - 48)) == n,
        decimals@.len() > 1 ==> decimals@[0] != '0',
        m >= 0 ==> signed@ == decimal(m as nat),
        m < 0 ==> signed@ == seq!['-'] + decimal((-m) as nat),
        n < 16 ==> hex@ == seq!["0123456789ABCDEF"@[n as int]],
        hex@ == upper_hex(n as nat),
{
    law_decimal_digits_give_the_number(n as nat);
    law_hexadecimal_digits_are_upper_case(n as nat);
}

/// Texts and characters are copied, cut and put together as they are.
pub proof fn law_texts_are_copied_as_they_are(
    a: &str,
    b: &str,
    c: &str,
    cs: &Vec<char>,
    from: usize,
    to: usize,
    chars: Vec<char>,
    string: String,
    part: Vec<char>,
    two: String,
    three: String,
    bytes: Vec<u8>,
    count: usize,
)
    requires
        call_ensures(chars_of, (a,), chars),
        call_ensures(string_of, (cs,), string),
        call_ensures(piece, (cs, from, to), part),
        call_ensures(concat2, (a, b), two),
        call_ensures(concat3, (a, b, c), three),
        call_ensures(bytes_of, (a,), bytes),
        call_ensures(byte_len_of, (a,), count),
    ensures
        chars@ == a@,
        string@ == cs@,
        part@ == cs@.subrange(from as int, to as int),
        two@ == a@ + b@,
        three@ == a@ + b@ + c@,
        bytes@ == vstd::utf8::encode_utf8(a@),
        count == bytes@.len(),
{
}

/// Characters are sought, compared and padded place by place.
pub proof fn law_characters_are_sought_in_order(
    s: &Vec<char>,
    p: &Vec<char>,
    c: char,
    at: usize,
    found: usize,
    stands: bool,
    starts: bool,
    same: bool,
    white: bool,
    t: &str,
    width: usize,
    padded: String,
)
    requires
        call_ensures(find_char, (s, c, at), found),
        call_ensures(stands_at, (s, p, at), stands),
        call_ensures(starts_with, (s, p), starts),
        call_ensures(same_chars, (s, p), same),
        call_ensures(is_white_space, (c,), white),
        call_ensures(pad_zeros, (t, width), padded),
        at <= s@.len(),
    ensures
        at <= found <= s@.len(),
        found < s@.len() ==> s@[found as int] == c,
        !s@.subrange(at as int, found as int).contains(c),
        stands <==> at + p@.len() <= s@.len() && s@.subrange(at as int, at + p@.len()) == p@,
        starts <==> p@.is_prefix_of(s@),
        same <==> s@ == p@,
        white == white_space(c),
        padded@ == zero_padded(t@, width as nat),
{
    law_places_are_of_the_first(s@, c, at as int);
}

} // verus!
