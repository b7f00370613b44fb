//! Text helpers: characters of a string, numerals, trimming and case.

use vstd::prelude::*;

verus! {

/// `String::push` appends one character.
pub assume_specification[ String::push ](s: &mut String, c: char)
    ensures
        final(s)@ == old(s)@.push(c),
;

/// What `String::from_utf8_lossy` makes of bytes.
pub uninterp spec fn lossy_text(bytes: Seq<u8>) -> Seq<char>;

/// `String::from_utf8_lossy`: bytes that are valid UTF-8 come out as the characters that they
/// encode. Of other bytes only the name of the result is given.
#[verifier::external_body]
pub(crate) fn from_utf8_lossy(bytes: &[u8]) -> (r: String)
    ensures
        r@ == lossy_text(bytes@),
        vstd::utf8::valid_utf8(bytes@) ==> r@ == vstd::utf8::decode_utf8(bytes@),
{
    String::from_utf8_lossy(bytes).into_owned()
}

/// Every character is ASCII.
pub open spec fn all_ascii(s: Seq<char>) -> bool {
    forall|i: int| 0 <= i < s.len() ==> (#[trigger] s[i]) < '\u{80}'
}

/// What `str::to_lowercase` makes of a text.
pub uninterp spec fn lowercased(s: Seq<char>) -> Seq<char>;

/// `str::to_lowercase`, which follows Unicode's lowercase mapping. Of ASCII text it makes the same
/// text with its letters in lower case.
#[verifier::external_body]
pub(crate) fn to_lowercase(s: &str) -> (r: String)
    ensures
        r@ == lowercased(s@),
        all_ascii(s@) ==> r@ == lowered(s@),
{
    s.to_lowercase()
}

/// A text in lower case.
pub open spec fn lower_case(s: Seq<char>) -> Seq<char> {
    if all_ascii(s) {
        lowered(s)
    } else {
        lowercased(s)
    }
}

/// The values of a list of texts.
pub open spec fn texts(v: Seq<String>) -> Seq<Seq<char>> {
    Seq::new(v.len(), |i: int| v[i]@)
}

/// The characters of `s`.
pub fn chars_of(s: &str) -> (r: Vec<char>)
    ensures
        r@ == s@,
{
    let mut r: Vec<char> = Vec::new();
    for c in it: s.chars()
        invariant
            r@ == it.seq().take(it.index() as int),
            it.seq() == s@,
    {
        r.push(c);
        assert(r@ =~= it.seq().take(it.index() + 1));
    }
    assert(r@ =~= s@);
    r
}

/// The text made of `cs`.
pub fn text_of(cs: &[char]) -> (r: String)
    ensures
        r@ == cs@,
{
    let mut r = String::new();
    let mut i: usize = 0;
    while i < cs.len()
        invariant
            i <= cs@.len(),
            r@ == cs@.take(i as int),
        decreases cs@.len() - i,
    {
        r.push(cs[i]);
        i = i + 1;
        assert(r@ =~= cs@.take(i as int));
    }
    assert(cs@.take(i as int) =~= cs@);
    r
}

/// Whether two byte strings are equal.
pub fn same_bytes(a: &[u8], b: &[u8]) -> (r: bool)
    ensures
        r == (a@ == b@),
{
    if a.len() != b.len() {
        return false;
    }
    let mut i: usize = 0;
    while i < a.len()
        invariant
            i <= a@.len(),
            a@.len() == b@.len(),
            forall|j: int| 0 <= j < i ==> a@[j] == b@[j],
        decreases a@.len() - i,
    {
        if a[i] != b[i] {
            return false;
        }
        i = i + 1;
    }
    assert(a@ =~= b@);
    true
}

/// Whether two texts are equal.
pub fn same_text(a: &str, b: &str) -> (r: bool)
    ensures
        r == (a@ == b@),
{
    let r = same_bytes(a.as_bytes(), b.as_bytes());
    proof {
        vstd::utf8::encode_utf8_decode_utf8(a@);
        vstd::utf8::encode_utf8_decode_utf8(b@);
    }
    r
}

/// `p` is the beginning of `s`.
pub open spec fn begins_with(s: Seq<char>, p: Seq<char>) -> bool {
    p.len() <= s.len() && s.take(p.len() as int) == p
}

/// `p` is the end of `s`.
pub open spec fn ends_in(s: Seq<char>, p: Seq<char>) -> bool {
    p.len() <= s.len() && s.skip(s.len() - p.len()) == p
}

/// Whether `part` stands in `s` at `at`.
pub fn stands_at(s: &[char], part: &[char], at: usize) -> (r: bool)
    requires
        at + part@.len() <= s@.len(),
    ensures
        r == (s@.subrange(at as int, at + part@.len()) == part@),
{
    let n = s.len();
    let mut i: usize = 0;
    while i < part.len()
        invariant
            i <= part@.len(),
            n == s@.len(),
            at + part@.len() <= n,
            forall|j: int| 0 <= j < i ==> s@[at + j] == part@[j],
        decreases part@.len() - i,
    {
        if s[at + i] != part[i] {
            assert(s@.subrange(at as int, at + part@.len())[i as int] != part@[i as int]);
            return false;
        }
        i = i + 1;
    }
    assert(s@.subrange(at as int, at + part@.len()) =~= part@);
    true
}

/// Whether `s` begins with `p`.
pub fn starts_with(s: &str, p: &str) -> (r: bool)
    ensures
        r == begins_with(s@, p@),
{
    let cs = chars_of(s);
    let ps = chars_of(p);
    if ps.len() > cs.len() {
        return false;
    }
    assert(s@.subrange(0, p@.len() as int) =~= s@.take(p@.len() as int));
    stands_at(cs.as_slice(), ps.as_slice(), 0)
}

/// Whether `s` ends with `p`.
pub fn ends_with(s: &str, p: &str) -> (r: bool)
    ensures
        r == ends_in(s@, p@),
{
    let cs = chars_of(s);
    let ps = chars_of(p);
    if ps.len() > cs.len() {
        return false;
    }
    let at = cs.len() - ps.len();
    assert(s@.subrange(at as int, at + p@.len()) =~= s@.skip(s@.len() - p@.len()));
    stands_at(cs.as_slice(), ps.as_slice(), at)
}

/// `s` without the ending `p`, if it has it.
pub fn strip_suffix(s: &str, p: &str) -> (r: Option<String>)
    ensures
        r is Some <==> ends_in(s@, p@),
        r matches Some(t) ==> t@ == s@.take(s@.len() - p@.len()),
{
    if ends_with(s, p) {
        let cs = chars_of(s);
        let ps = chars_of(p);
        let n = cs.len() - ps.len();
        let head = vstd::slice::slice_subrange(cs.as_slice(), 0, n);
        assert(head@ =~= s@.take(s@.len() - p@.len()));
        Some(text_of(head))
    } else {
        None
    }
}

/// `s` without the `c` at its end.
pub open spec fn without_trailing(s: Seq<char>, c: char) -> Seq<char>
    decreases s.len(),
{
    if s.len() > 0 && s.last() == c {
        without_trailing(s.drop_last(), c)
    } else {
        s
    }
}

/// `s` without the `c` at its end.
pub fn strip_trailing(s: &[char], c: char) -> (r: &[char])
    ensures
        r@ == without_trailing(s@, c),
{
    let mut n = s.len();
    assert(s@.take(n as int) =~= s@);
    while n > 0 && s[n - 1] == c
        invariant
            n <= s@.len(),
            without_trailing(s@, c) == without_trailing(s@.take(n as int), c),
        decreases n,
    {
        assert(s@.take(n as int).last() == s@[n - 1]);
        assert(s@.take(n as int).drop_last() =~= s@.take(n - 1));
        n = n - 1;
    }
    proof {
        if n > 0 {
            assert(s@.take(n as int).last() == s@[n - 1]);
        }
    }
    let r = vstd::slice::slice_subrange(s, 0, n);
    assert(r@ =~= s@.take(n as int));
    r
}

/// The value of an optional text.
pub open spec fn text_view(t: Option<String>) -> Option<Seq<char>> {
    match t {
        Some(s) => Some(s@),
        None => None,
    }
}

/// `a` followed by `b`.
pub fn joined(a: &str, b: &str) -> (r: String)
    ensures
        r@ == a@ + b@,
{
    let mut r = a.to_owned();
    r.append(b);
    r
}

/// The lower-case hexadecimal digit of `d`.
pub open spec fn digit_of(d: int) -> char {
    if d == 0 {
        '0'
    } else if d == 1 {
        '1'
    } else if d == 2 {
        '2'
    } else if d == 3 {
        '3'
    } else if d == 4 {
        '4'
    } else if d == 5 {
        '5'
    } else if d == 6 {
        '6'
    } else if d == 7 {
        '7'
    } else if d == 8 {
        '8'
    } else if d == 9 {
        '9'
    } else if d == 10 {
        'a'
    } else if d == 11 {
        'b'
    } else if d == 12 {
        'c'
    } else if d == 13 {
        'd'
    } else if d == 14 {
        'e'
    } else {
        'f'
    }
}

/// The lower-case hexadecimal digit of `d`.
pub fn digit(d: u8) -> (r: char)
    requires
        d < 16,
    ensures
        r == digit_of(d as int),
{
    match d {
        0 => '0',
        1 => '1',
        2 => '2',
        3 => '3',
        4 => '4',
        5 => '5',
        6 => '6',
        7 => '7',
        8 => '8',
        9 => '9',
        10 => 'a',
        11 => 'b',
        12 => 'c',
        13 => 'd',
        14 => 'e',
        _ => 'f',
    }
}

/// The upper-case form of an ASCII letter; any other character is its own.
pub open spec fn ascii_upper(c: char) -> char {
    if 'a' <= c <= 'z' {
        (c as u32 - 32) as char
    } else {
        c
    }
}

/// The lower-case form of an ASCII letter; any other character is its own.
pub open spec fn ascii_lower(c: char) -> char {
    if 'A' <= c <= 'Z' {
        (c as u32 + 32) as char
    } else {
        c
    }
}

/// The lower-case form of an ASCII letter; any other character is its own.
pub fn to_ascii_lower(c: char) -> (r: char)
    ensures
        r == ascii_lower(c),
{
    if 'A' <= c && c <= 'Z' {
        (c as u8 + 32) as char
    } else {
        c
    }
}

/// The upper-case form of an ASCII letter; any other character is its own.
pub fn to_ascii_upper(c: char) -> (r: char)
    ensures
        r == ascii_upper(c),
{
    if 'a' <= c && c <= 'z' {
        (c as u8 - 32) as char
    } else {
        c
    }
}

/// The numeral of `n` in `base`, without leading zeros.
pub open spec fn numeral(n: nat, base: nat) -> Seq<char>
    decreases n,
{
    if base < 2 || n < base {
        seq![digit_of(n as int)]
    } else {
        proof {
            vstd::arithmetic::div_mod::lemma_div_decreases(n as int, base as int);
        }
        numeral(n / base, base).push(digit_of((n % base) as int))
    }
}

/// The decimal numeral of `n`.
pub open spec fn dec(n: nat) -> Seq<char> {
    numeral(n, 10)
}

/// The numeral of `n` in `base`.
pub fn numeral_text(n: u64, base: u64) -> (r: String)
    requires
        2 <= base <= 16,
    ensures
        r@ == numeral(n as nat, base as nat),
    decreases n,
{
    if n < base {
        let mut r = String::new();
        r.push(digit(n as u8));
        assert(r@ =~= seq![digit_of(n as int)]);
        r
    } else {
        assert(n / base < n) by (nonlinear_arith)
            requires
                n >= base,
                base >= 2,
        ;
        let mut r = numeral_text(n / base, base);
        r.push(digit((n % base) as u8));
        r
    }
}

/// The decimal numeral of `n`.
pub fn dec_text(n: u64) -> (r: String)
    ensures
        r@ == dec(n as nat),
{
    numeral_text(n, 10)
}

/// The last `width` hexadecimal digits of `v`.
pub open spec fn fixed_hex(v: nat, width: nat) -> Seq<char>
    decreases width,
{
    if width == 0 {
        Seq::empty()
    } else {
        fixed_hex(v / 16, (width - 1) as nat).push(digit_of((v % 16) as int))
    }
}

/// The last `width` hexadecimal digits of `v`.
pub fn fixed_hex_text(v: u64, width: usize) -> (r: String)
    ensures
        r@ == fixed_hex(v as nat, width as nat),
    decreases width,
{
    if width == 0 {
        String::new()
    } else {
        let mut r = fixed_hex_text(v / 16, width - 1);
        r.push(digit((v % 16) as u8));
        r
    }
}

/// `s` with every ASCII letter in upper case.
pub open spec fn uppered(s: Seq<char>) -> Seq<char> {
    s.map_values(|c: char| ascii_upper(c))
}

/// `s` with every ASCII letter in lower case.
pub open spec fn lowered(s: Seq<char>) -> Seq<char> {
    s.map_values(|c: char| ascii_lower(c))
}

/// `s` with every ASCII letter in upper case.
pub fn uppered_text(s: &str) -> (r: String)
    ensures
        r@ == uppered(s@),
{
    let cs = chars_of(s);
    let mut r = String::new();
    let mut i: usize = 0;
    while i < cs.len()
        invariant
            i <= cs@.len(),
            cs@ == s@,
            r@ == uppered(s@).take(i as int),
        decreases cs@.len() - i,
    {
        r.push(to_ascii_upper(cs[i]));
        i = i + 1;
        assert(r@ =~= uppered(s@).take(i as int));
    }
    assert(r@ =~= uppered(s@));
    r
}

/// Two texts that are equal up to the case of ASCII letters.
pub open spec fn same_ignoring_case(a: Seq<char>, b: Seq<char>) -> bool {
    lowered(a) == lowered(b)
}

/// Whether two texts are equal up to the case of ASCII letters.
pub fn eq_ignore_ascii_case(a: &[char], b: &[char]) -> (r: bool)
    ensures
        r == same_ignoring_case(a@, b@),
{
    if a.len() != b.len() {
        assert(lowered(a@).len() != lowered(b@).len());
        return false;
    }
    let mut i: usize = 0;
    while i < a.len()
        invariant
            i <= a@.len(),
            a@.len() == b@.len(),
            forall|j: int| 0 <= j < i ==> ascii_lower(a@[j]) == ascii_lower(b@[j]),
        decreases a@.len() - i,
    {
        if to_ascii_lower(a[i]) != to_ascii_lower(b[i]) {
            assert(lowered(a@)[i as int] != lowered(b@)[i as int]);
            return false;
        }
        i = i + 1;
    }
    assert(lowered(a@) =~= lowered(b@));
    true
}

/// An ASCII letter or digit.
pub open spec fn is_alphanumeric(c: char) -> bool {
    'a' <= c <= 'z' || 'A' <= c <= 'Z' || '0' <= c <= '9'
}

/// Whether `c` is an ASCII letter or digit.
pub fn is_ascii_alphanumeric(c: char) -> (r: bool)
    ensures
        r == is_alphanumeric(c),
{
    ('a' <= c && c <= 'z') || ('A' <= c && c <= 'Z') || ('0' <= c && c <= '9')
}

/// A character with Unicode's `White_Space` property.
pub open spec fn is_white(c: char) -> bool {
    let u = c as u32;
    ||| 0x09 <= u <= 0x0D
    ||| u == 0x20
    ||| u == 0x85
    ||| u == 0xA0
    ||| u == 0x1680
    ||| 0x2000 <= u <= 0x200A
    ||| u == 0x2028
    ||| u == 0x2029
    ||| u == 0x202F
    ||| u == 0x205F
    ||| u == 0x3000
}

/// Whether `c` has Unicode's `White_Space` property.
pub fn is_whitespace(c: char) -> (r: bool)
    ensures
        r == is_white(c),
{
    let u = c as u32;
    (0x09 <= u && u <= 0x0D) || u == 0x20 || u == 0x85 || u == 0xA0 || u == 0x1680 || (0x2000 <= u
        && u <= 0x200A) || u == 0x2028 || u == 0x2029 || u == 0x202F || u == 0x205F || u == 0x3000
}

/// `s` without its leading white space.
pub open spec fn trimmed_start(s: Seq<char>) -> Seq<char>
    decreases s.len(),
{
    if s.len() > 0 && is_white(s[0]) {
        trimmed_start(s.skip(1))
    } else {
        s
    }
}

/// `s` without its trailing white space.
pub open spec fn trimmed_end(s: Seq<char>) -> Seq<char>
    decreases s.len(),
{
    if s.len() > 0 && is_white(s.last()) {
        trimmed_end(s.drop_last())
    } else {
        s
    }
}

/// `s` without its leading and trailing white space.
pub open spec fn trimmed(s: Seq<char>) -> Seq<char> {
    trimmed_end(trimmed_start(s))
}

/// `s` without its leading and trailing white space.
pub fn trim(s: &[char]) -> (r: &[char])
    ensures
        r@ == trimmed(s@),
        r@.len() <= s@.len(),
{
    let n = s.len();
    let mut a: usize = 0;
    assert(s@.skip(0) =~= s@);
    while a < n && is_whitespace(s[a])
        invariant
            a <= n,
            n == s@.len(),
            trimmed_start(s@) == trimmed_start(s@.skip(a as int)),
        decreases n - a,
    {
        assert(s@.skip(a as int)[0] == s@[a as int]);
        assert(s@.skip(a as int).skip(1) =~= s@.skip(a + 1));
        a = a + 1;
    }
    assert(trimmed_start(s@) == s@.skip(a as int)) by {
        if a < n {
            assert(s@.skip(a as int)[0] == s@[a as int]);
        }
    }
    let ghost t = s@.skip(a as int);
    let mut b: usize = n;
    assert(s@.subrange(a as int, b as int) =~= t);
    while b > a && is_whitespace(s[b - 1])
        invariant
            a <= b <= n,
            n == s@.len(),
            trimmed_end(t) == trimmed_end(s@.subrange(a as int, b as int)),
        decreases b,
    {
        assert(s@.subrange(a as int, b as int).last() == s@[b - 1]);
        assert(s@.subrange(a as int, b as int).drop_last() =~= s@.subrange(a as int, b - 1));
        b = b - 1;
    }
    assert(trimmed_end(t) == s@.subrange(a as int, b as int)) by {
        if b > a {
            assert(s@.subrange(a as int, b as int).last() == s@[b - 1]);
        }
    }
    vstd::slice::slice_subrange(s, a, b)
}

/// The first place from `from` on where `c` stands in `s`, or the length of `s`.
pub open spec fn find_from(s: Seq<char>, c: char, from: int) -> int
    decreases s.len() - from,
{
    if from >= s.len() {
        s.len() as int
    } else if s[from] == c {
        from
    } else {
        find_from(s, c, from + 1)
    }
}

/// The place where a character is found lies within the text.
pub proof fn find_from_is_within(s: Seq<char>, c: char, from: int)
    requires
        from <= s.len(),
    ensures
        from <= find_from(s, c, from) <= s.len(),
    decreases s.len() - from,
{
    if from < s.len() && s[from] != c {
        find_from_is_within(s, c, from + 1);
    }
}

/// The first place from `from` on where `c` stands in `s`, or the length of `s`.
pub fn find(s: &[char], c: char, from: usize) -> (r: usize)
    requires
        from <= s@.len(),
    ensures
        r == find_from(s@, c, from as int),
        from <= r <= s@.len(),
        r < s@.len() ==> s@[r as int] == c,
{
    let mut i = from;
    while i < s.len() && s[i] != c
        invariant
            from <= i <= s@.len(),
            find_from(s@, c, from as int) == find_from(s@, c, i as int),
        decreases s@.len() - i,
    {
        i = i + 1;
    }
    i
}

/// The pieces of a text between separators, from `from` on. There is always one more than
/// separators.
pub open spec fn pieces_from(s: Seq<char>, sep: char, from: int) -> Seq<Seq<char>>
    decreases s.len() - from + 1,
{
    if from < 0 || from > s.len() {
        Seq::empty()
    } else {
        proof {
            find_from_is_within(s, sep, from);
        }
        let end = find_from(s, sep, from);
        seq![s.subrange(from, end)] + pieces_from(s, sep, end + 1)
    }
}

proof fn lemma_find_in_front(s: Seq<char>, c: char, t: Seq<char>, from: int)
    requires
        0 <= from <= s.len(),
    ensures
        find_from(s.push(c) + t, c, from) == find_from(s, c, from),
    decreases s.len() - from,
{
    if from < s.len() && s[from] != c {
        lemma_find_in_front(s, c, t, from + 1);
    }
}

proof fn lemma_find_behind(s: Seq<char>, c: char, t: Seq<char>, from: int)
    requires
        0 <= from <= t.len(),
    ensures
        find_from(s.push(c) + t, c, s.len() + 1 + from) == s.len() + 1 + find_from(t, c, from),
    decreases t.len() - from,
{
    if from < t.len() && t[from] != c {
        lemma_find_behind(s, c, t, from + 1);
    }
}

proof fn lemma_pieces_behind(s: Seq<char>, c: char, t: Seq<char>, from: int)
    requires
        0 <= from,
    ensures
        pieces_from(s.push(c) + t, c, s.len() + 1 + from) == pieces_from(t, c, from),
    decreases t.len() - from + 1,
{
    if from <= t.len() {
        find_from_is_within(t, c, from);
        lemma_find_behind(s, c, t, from);
        let end = find_from(t, c, from);
        lemma_pieces_behind(s, c, t, end + 1);
        assert((s.push(c) + t).subrange(s.len() + 1 + from, s.len() + 1 + end) =~= t.subrange(
            from,
            end,
        ));
    }
}

proof fn lemma_pieces_in_front(s: Seq<char>, c: char, t: Seq<char>, from: int)
    requires
        0 <= from <= s.len(),
    ensures
        pieces_from(s.push(c) + t, c, from) == pieces_from(s, c, from) + pieces_from(t, c, 0),
    decreases s.len() - from,
{
    let u = s.push(c) + t;
    find_from_is_within(s, c, from);
    lemma_find_in_front(s, c, t, from);
    let end = find_from(s, c, from);
    assert(u.subrange(from, end) =~= s.subrange(from, end));
    if end < s.len() {
        lemma_pieces_in_front(s, c, t, end + 1);
        assert(pieces_from(u, c, from) =~= pieces_from(s, c, from) + pieces_from(t, c, 0));
    } else {
        lemma_pieces_behind(s, c, t, 0);
        assert(pieces_from(s, c, end + 1) == Seq::<Seq<char>>::empty());
        assert(pieces_from(s, c, from) =~= seq![s.subrange(from, end)]);
    }
}

/// The pieces of two texts with a separator between them are those of the one and of the other.
pub proof fn pieces_of_joined(s: Seq<char>, sep: char, t: Seq<char>)
    ensures
        pieces_from(s.push(sep) + t, sep, 0) == pieces_from(s, sep, 0) + pieces_from(t, sep, 0),
{
    lemma_pieces_in_front(s, sep, t, 0);
}

/// The values of a list of character lists.
pub open spec fn char_views(v: Seq<Vec<char>>) -> Seq<Seq<char>> {
    Seq::new(v.len(), |i: int| v[i]@)
}

/// The pieces of a text between separators.
pub fn pieces(s: &[char], sep: char) -> (r: Vec<Vec<char>>)
    ensures
        char_views(r@) == pieces_from(s@, sep, 0),
        r@.len() > 0,
{
    let n = s.len();
    let mut r: Vec<Vec<char>> = Vec::new();
    let mut pos: usize = 0;
    assert(char_views(r@) + pieces_from(s@, sep, 0) =~= pieces_from(s@, sep, 0));
    loop
        invariant
            n == s@.len(),
            pos <= n,
            char_views(r@) + pieces_from(s@, sep, pos as int) == pieces_from(s@, sep, 0),
        decreases n - pos,
    {
        let end = find(s, sep, pos);
        let ghost before = char_views(r@);
        let piece = vstd::slice::slice_to_vec(vstd::slice::slice_subrange(s, pos, end));
        let ghost piece_view = piece@;
        assert(piece_view =~= s@.subrange(pos as int, end as int));
        r.push(piece);
        assert(char_views(r@) =~= before.push(piece_view));
        assert(char_views(r@) + pieces_from(s@, sep, end + 1) =~= before + pieces_from(
            s@,
            sep,
            pos as int,
        ));
        if end >= n {
            assert(char_views(r@) + pieces_from(s@, sep, end + 1) =~= char_views(r@));
            return r;
        }
        pos = end + 1;
    }
}

/// What `{:?}` makes of a text.
pub uninterp spec fn debug_of(s: Seq<char>) -> Seq<char>;

/// `format!` with `{:?}`: the text in quotes, with what needs escaping escaped.
#[verifier::external_body]
pub(crate) fn debug_text(s: &str) -> (r: String)
    ensures
        r@ == debug_of(s@),
{
    format!("{s:?}")
}

/// The low byte of every character of `s`: the bytes of an ASCII text.
pub open spec fn ascii(s: Seq<char>) -> Seq<u8> {
    s.map_values(|c: char| c as u8)
}

/// The low byte of every character of `s`: the bytes of an ASCII text.
pub fn ascii_of(s: &str) -> (r: Vec<u8>)
    ensures
        r@ == ascii(s@),
{
    let cs = chars_of(s);
    let mut r: Vec<u8> = Vec::new();
    let mut i: usize = 0;
    while i < cs.len()
        invariant
            i <= cs@.len(),
            cs@ == s@,
            r@ == ascii(s@).take(i as int),
        decreases cs@.len() - i,
    {
        r.push(cs[i] as u8);
        i = i + 1;
        assert(r@ =~= ascii(s@).take(i as int));
    }
    assert(r@ =~= ascii(s@));
    r
}

/// The value of a digit.
pub open spec fn digit_value(c: char) -> int {
    if '0' <= c <= '9' {
        c as int - 0x30
    } else {
        c as int - 0x57
    }
}

/// The number that digits stand for.
pub open spec fn number_of(digits: Seq<char>, base: int) -> int
    decreases digits.len(),
{
    if digits.len() == 0 {
        0
    } else {
        number_of(digits.drop_last(), base) * base + digit_value(digits.last())
    }
}

/// A digit below `base`, with letters in lower case.
pub open spec fn is_digit(c: char, base: int) -> bool {
    ('0' <= c <= '9' || 'a' <= c <= 'f') && digit_value(c) < base
}

/// A numeral stands for its number, in digits of its base, and begins with no superfluous zero.
pub proof fn numeral_reads_back(n: nat, base: nat)
    requires
        2 <= base <= 16,
    ensures
        ({
            let s = numeral(n, base);
            &&& s.len() > 0
            &&& number_of(s, base as int) == n
            &&& forall|i: int| 0 <= i < s.len() ==> is_digit(#[trigger] s[i], base as int)
            &&& s[0] == '0' ==> n == 0 && s.len() == 1
        }),
    decreases n,
{
    let s = numeral(n, base);
    if n < base {
        assert(s.drop_last() =~= Seq::<char>::empty());
        reveal_with_fuel(number_of, 2);
    } else {
        vstd::arithmetic::div_mod::lemma_div_decreases(n as int, base as int);
        vstd::arithmetic::div_mod::lemma_fundamental_div_mod(n as int, base as int);
        vstd::arithmetic::div_mod::lemma_div_non_zero(n as int, base as int);
        numeral_reads_back(n / base, base);
        assert(s.drop_last() =~= numeral(n / base, base));
        assert(base * (n / base) == (n / base) * base) by (nonlinear_arith);
        assert(0 <= n % base < base) by (nonlinear_arith)
            requires
                base > 0,
        ;
    }
}

/// A fixed number of hexadecimal digits stands for the number, where there are enough of them.
pub proof fn fixed_hex_reads_back(v: nat, width: nat)
    ensures
        ({
            let s = fixed_hex(v, width);
            &&& s.len() == width
            &&& forall|i: int| 0 <= i < s.len() ==> is_digit(#[trigger] s[i], 16)
            &&& v < vstd::arithmetic::power::pow(16, width) ==> number_of(s, 16) == v
        }),
    decreases width,
{
    vstd::arithmetic::power::lemma_pow0(16);
    if width > 0 {
        let w = (width - 1) as nat;
        vstd::arithmetic::power::lemma_pow_adds(16, 1, w);
        vstd::arithmetic::power::lemma_pow1(16);
        fixed_hex_reads_back(v / 16, w);
        assert(fixed_hex(v, width).drop_last() =~= fixed_hex(v / 16, w));
    }
}

/// Changing the case of a text moves the 26 ASCII letters by 0x20 and nothing else.
pub proof fn case_moves_letters_only(s: Seq<char>, i: int)
    requires
        0 <= i < s.len(),
    ensures
        uppered(s).len() == s.len(),
        lowered(s).len() == s.len(),
        uppered(s)[i] as int == if 0x61 <= s[i] as int <= 0x7A {
            s[i] as int - 0x20
        } else {
            s[i] as int
        },
        lowered(s)[i] as int == if 0x41 <= s[i] as int <= 0x5A {
            s[i] as int + 0x20
        } else {
            s[i] as int
        },
{
}

/// What is left of a text without the characters `c` at its end: a beginning of the text that does
/// not end in `c`, with nothing but `c` behind it.
pub proof fn without_trailing_keeps_the_rest(s: Seq<char>, c: char)
    ensures
        ({
            let t = without_trailing(s, c);
            &&& t.len() <= s.len()
            &&& t == s.take(t.len() as int)
            &&& forall|i: int| t.len() <= i < s.len() ==> #[trigger] s[i] == c
            &&& t.len() > 0 ==> t.last() != c
        }),
    decreases s.len(),
{
    if s.len() > 0 && s.last() == c {
        without_trailing_keeps_the_rest(s.drop_last(), c);
        let t = without_trailing(s, c);
        assert(s.take(t.len() as int) =~= s.drop_last().take(t.len() as int));
        assert forall|i: int| t.len() <= i < s.len() implies #[trigger] s[i] == c by {
            if i < s.len() - 1 {
                assert(s.drop_last()[i] == c);
            }
        }
    } else {
        assert(s.take(s.len() as int) =~= s);
    }
}

/// A text without the white space around it begins and ends with no white space, and only white
/// space was taken away.
pub proof fn trimming_takes_white_space_only(s: Seq<char>) -> (at: int)
    ensures
        ({
            let t = trimmed(s);
            &&& 0 <= at <= at + t.len() <= s.len()
            &&& t == s.subrange(at, at + t.len())
            &&& t.len() > 0 ==> !is_white(t[0]) && !is_white(t.last())
            &&& forall|i: int|
                0 <= i < at || at + t.len() <= i < s.len() ==> is_white(#[trigger] s[i])
        }),
{
    let a = lemma_trimmed_start(s);
    let u = trimmed_start(s);
    lemma_trimmed_end(u);
    let t = trimmed(s);
    assert(t =~= s.subrange(a, a + t.len()));
    assert forall|i: int| a + t.len() <= i < s.len() implies is_white(#[trigger] s[i]) by {
        assert(u[i - a] == s[i]);
    }
    if t.len() > 0 {
        assert(t[0] == u[0]);
    }
    a
}

proof fn lemma_trimmed_start(s: Seq<char>) -> (a: int)
    ensures
        0 <= a <= s.len(),
        trimmed_start(s) == s.skip(a),
        forall|i: int| 0 <= i < a ==> is_white(#[trigger] s[i]),
        trimmed_start(s).len() > 0 ==> !is_white(trimmed_start(s)[0]),
    decreases s.len(),
{
    if s.len() > 0 && is_white(s[0]) {
        let a = lemma_trimmed_start(s.skip(1));
        assert(s.skip(1).skip(a) =~= s.skip(a + 1));
        assert forall|i: int| 0 <= i < a + 1 implies is_white(#[trigger] s[i]) by {
            if i > 0 {
                assert(s.skip(1)[i - 1] == s[i]);
            }
        }
        a + 1
    } else {
        assert(s.skip(0) =~= s);
        0
    }
}

proof fn lemma_trimmed_end(s: Seq<char>)
    ensures
        trimmed_end(s).len() <= s.len(),
        trimmed_end(s) == s.take(trimmed_end(s).len() as int),
        forall|i: int| trimmed_end(s).len() <= i < s.len() ==> is_white(#[trigger] s[i]),
        trimmed_end(s).len() > 0 ==> !is_white(trimmed_end(s).last()),
    decreases s.len(),
{
    if s.len() > 0 && is_white(s.last()) {
        lemma_trimmed_end(s.drop_last());
        let n = trimmed_end(s).len() as int;
        assert(s.drop_last().take(n) =~= s.take(n));
        assert forall|i: int| n <= i < s.len() implies is_white(#[trigger] s[i]) by {
            if i < s.len() - 1 {
                assert(s.drop_last()[i] == s[i]);
            }
        }
    } else {
        assert(s.take(s.len() as int) =~= s);
    }
}

/// A text in which the separator does not stand is its only piece.
pub proof fn a_text_without_separators_is_one_piece(s: Seq<char>, sep: char)
    requires
        !s.contains(sep),
    ensures
        pieces_from(s, sep, 0) == seq![s],
{
    lemma_not_found(s, sep, 0);
    reveal_with_fuel(pieces_from, 2);
    assert(s.subrange(0, s.len() as int) =~= s);
    assert(pieces_from(s, sep, 0) =~= seq![s]);
}

proof fn lemma_not_found(s: Seq<char>, c: char, from: int)
    requires
        0 <= from <= s.len(),
        !s.contains(c),
    ensures
        find_from(s, c, from) == s.len(),
    decreases s.len() - from,
{
    if from < s.len() {
        assert(s.contains(s[from]));
        lemma_not_found(s, c, from + 1);
    }
}

/// Two texts are the same up to case exactly where each character of one is that of the other, or
/// the other case of the same ASCII letter.
pub proof fn case_is_ignored_in_letters_only(a: Seq<char>, b: Seq<char>)
    ensures
        same_ignoring_case(a, b) <==> a.len() == b.len() && forall|i: int|
            0 <= i < a.len() ==> {
                let (x, y) = (#[trigger] a[i], b[i]);
                ||| x == y
                ||| 'a' <= x <= 'z' && y as int == x as int - 0x20
                ||| 'A' <= x <= 'Z' && y as int == x as int + 0x20
            },
{
    if same_ignoring_case(a, b) {
        assert(lowered(a).len() == lowered(b).len());
        assert forall|i: int| 0 <= i < a.len() implies {
            let (x, y) = (#[trigger] a[i], b[i]);
            ||| x == y
            ||| 'a' <= x <= 'z' && y as int == x as int - 0x20
            ||| 'A' <= x <= 'Z' && y as int == x as int + 0x20
        } by {
            case_moves_letters_only(a, i);
            case_moves_letters_only(b, i);
            assert(lowered(a)[i] == lowered(b)[i]);
        }
    }
    if a.len() == b.len() && forall|i: int|
        0 <= i < a.len() ==> {
            let (x, y) = (#[trigger] a[i], b[i]);
            ||| x == y
            ||| 'a' <= x <= 'z' && y as int == x as int - 0x20
            ||| 'A' <= x <= 'Z' && y as int == x as int + 0x20
        } {
        assert forall|i: int| 0 <= i < a.len() implies lowered(a)[i] == lowered(b)[i] by {
            case_moves_letters_only(a, i);
            case_moves_letters_only(b, i);
            assert(a[i] == a[i]);
        }
        assert(lowered(a) =~= lowered(b));
    }
}

} // verus!
