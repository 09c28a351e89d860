//! Text: comparing, slicing and formatting strings by their characters.
use vstd::prelude::*;
use vstd::utf8::{decode_utf8, valid_utf8};

verus! {

/// `String::push` appends one character.
pub assume_specification[ String::push ](s: &mut String, c: char)
    ensures
        final(s)@ == old(s)@.push(c),
;

/// The Unicode property that `char::is_alphanumeric` tests.
pub uninterp spec fn unicode_alphanumeric(c: char) -> bool;

/// True of the letters and digits of ASCII.
pub open spec fn ascii_alphanumeric(c: char) -> bool {
    ||| 'a' <= c <= 'z'
    ||| 'A' <= c <= 'Z'
    ||| '0' <= c <= '9'
}

/// True of letters and digits.
pub open spec fn alphanumeric(c: char) -> bool {
    if (c as u32) < 128 {
        ascii_alphanumeric(c)
    } else {
        unicode_alphanumeric(c)
    }
}

/// `char::is_alphanumeric` tests a fixed Unicode property, which on ASCII holds
/// of the letters and digits alone.
pub assume_specification[ char::is_alphanumeric ](c: char) -> (b: bool)
    ensures
        b == unicode_alphanumeric(c),
        (c as u32) < 128 ==> b == ascii_alphanumeric(c),
;

/// The Unicode property that `char::is_whitespace` tests.
pub uninterp spec fn unicode_whitespace(c: char) -> bool;

/// True of the white space of ASCII: the space, and tab to carriage return.
pub open spec fn ascii_whitespace(c: char) -> bool {
    c == ' ' || 9 <= c as u32 <= 13
}

/// True of white space.
pub open spec fn whitespace(c: char) -> bool {
    if (c as u32) < 128 {
        ascii_whitespace(c)
    } else {
        unicode_whitespace(c)
    }
}

/// `char::is_whitespace` tests a fixed Unicode property, which on ASCII holds of the
/// space and of tab to carriage return alone.
pub assume_specification[ char::is_whitespace ](c: char) -> (b: bool)
    ensures
        b == unicode_whitespace(c),
        (c as u32) < 128 ==> b == ascii_whitespace(c),
;

/// `str` equality (`PartialEq for str`) compares the characters.
#[verifier::external_body]
pub(crate) fn str_eq(a: &str, b: &str) -> (r: bool)
    ensures
        r == (a@ == b@),
{
    a == b
}

/// The text that `String::from_utf8_lossy` makes of a byte string.
pub uninterp spec fn lossy_utf8(b: Seq<u8>) -> Seq<char>;

/// `String::from_utf8_lossy` decodes UTF-8; what is not valid UTF-8 it replaces
/// in a way that depends on the bytes alone.
#[verifier::external_body]
pub(crate) fn from_utf8_lossy(b: &[u8]) -> (s: String)
    ensures
        s@ == lossy_utf8(b@),
        valid_utf8(b@) ==> s@ == decode_utf8(b@),
{
    String::from_utf8_lossy(b).into_owned()
}

/// `std::str::from_utf8` decodes valid UTF-8 and refuses anything else.
#[verifier::external_body]
pub(crate) fn from_utf8(b: &[u8]) -> (s: Option<String>)
    ensures
        s.is_some() == valid_utf8(b@),
        s is Some ==> s->0@ == decode_utf8(b@),
{
    std::str::from_utf8(b).ok().map(|t| t.to_string())
}

/// The characters of `s`.
pub fn to_chars(s: &str) -> (v: Vec<char>)
    ensures
        v@ == s@,
{
    broadcast use vstd::string::axiom_spec_iter;

    let mut v: Vec<char> = Vec::new();
    for c in it: s.chars()
        invariant
            v@.len() == it.index(),
            forall|i: int| 0 <= i < v@.len() ==> v@[i] == it.seq()[i],
            it.seq() == s@,
    {
        v.push(c);
    }
    assert(v@ =~= s@);
    v
}

/// The string of the characters from `start` to `end`.
pub fn from_chars(v: &Vec<char>, start: usize, end: usize) -> (s: String)
    requires
        start <= end <= v@.len(),
    ensures
        s@ == v@.subrange(start as int, end as int),
{
    let mut s = String::new();
    let mut i: usize = start;
    while i < end
        invariant
            start <= i <= end <= v@.len(),
            s@ == v@.subrange(start as int, i as int),
        decreases end - i,
    {
        s.push(v[i]);
        i = i + 1;
        assert(s@ =~= v@.subrange(start as int, i as int));
    }
    assert(v@.subrange(start as int, start as int) =~= Seq::<char>::empty());
    s
}

/// A string with the same characters as `s`.
pub fn owned(s: &str) -> (r: String)
    ensures
        r@ == s@,
{
    s.to_owned()
}

/// `s` followed by `t`.
pub fn joined(s: &str, t: &str) -> (r: String)
    ensures
        r@ == s@ + t@,
{
    let mut r = s.to_owned();
    r.append(t);
    r
}

/// True when `s` holds a character that a C string cannot.
pub open spec fn has_nul(s: Seq<char>) -> bool {
    s.contains('\0')
}

/// Tests a name for a character that a C string cannot hold.
pub fn contains_nul(s: &str) -> (r: bool)
    ensures
        r == has_nul(s@),
{
    let v = to_chars(s);
    let mut i: usize = 0;
    while i < v.len()
        invariant
            v@ == s@,
            i <= v@.len(),
            forall|j: int| 0 <= j < i ==> v@[j] != '\0',
        decreases v@.len() - i,
    {
        if v[i] == '\0' {
            assert(s@[i as int] == '\0');
            return true;
        }
        i = i + 1;
    }
    false
}

/// True when `s` has a character that is not white space.
pub open spec fn spec_has_ink(s: Seq<char>) -> bool {
    exists|i: int| 0 <= i < s.len() && !whitespace(#[trigger] s[i])
}

/// Tests whether `s` has a character that is not white space.
pub fn has_ink(s: &str) -> (r: bool)
    ensures
        r == spec_has_ink(s@),
{
    let v = to_chars(s);
    let mut i: usize = 0;
    while i < v.len()
        invariant
            v@ == s@,
            i <= v@.len(),
            forall|j: int| 0 <= j < i ==> whitespace(#[trigger] v@[j]),
        decreases v@.len() - i,
    {
        if !v[i].is_whitespace() {
            assert(!whitespace(s@[i as int]));
            return true;
        }
        i = i + 1;
    }
    false
}

/// True when `s` ends in `t`.
pub open spec fn has_suffix(s: Seq<char>, t: Seq<char>) -> bool {
    &&& t.len() <= s.len()
    &&& s.subrange(s.len() - t.len(), s.len() as int) == t
}

/// True when `s` begins with `t`.
pub open spec fn has_prefix(s: Seq<char>, t: Seq<char>) -> bool {
    &&& t.len() <= s.len()
    &&& s.subrange(0, t.len() as int) == t
}

/// Tests whether `s` ends in `t`.
pub fn ends_with(s: &str, t: &str) -> (r: bool)
    ensures
        r == has_suffix(s@, t@),
{
    let a = to_chars(s);
    let b = to_chars(t);
    if b.len() > a.len() {
        return false;
    }
    let shift: usize = a.len() - b.len();
    let mut i: usize = 0;
    while i < b.len()
        invariant
            a@ == s@,
            b@ == t@,
            shift == a@.len() - b@.len(),
            i <= b@.len(),
            forall|j: int| 0 <= j < i ==> a@[shift + j] == b@[j],
        decreases b@.len() - i,
    {
        assert(a@.len() == a.len());
        if a[shift + i] != b[i] {
            assert(s@.subrange(shift as int, s@.len() as int)[i as int] != t@[i as int]);
            return false;
        }
        i = i + 1;
    }
    assert(s@.subrange(shift as int, s@.len() as int) =~= t@);
    true
}

/// Tests whether `s` begins with `t`.
pub fn starts_with(s: &str, t: &str) -> (r: bool)
    ensures
        r == has_prefix(s@, t@),
{
    let a = to_chars(s);
    let b = to_chars(t);
    if b.len() > a.len() {
        return false;
    }
    let mut i: usize = 0;
    while i < b.len()
        invariant
            a@ == s@,
            b@ == t@,
            b@.len() <= a@.len(),
            i <= b@.len(),
            forall|j: int| 0 <= j < i ==> a@[j] == b@[j],
        decreases b@.len() - i,
    {
        if a[i] != b[i] {
            assert(s@.subrange(0, t@.len() as int)[i as int] != t@[i as int]);
            return false;
        }
        i = i + 1;
    }
    assert(s@.subrange(0, t@.len() as int) =~= t@);
    true
}

/// `s` without its first character.
pub fn skip_first(s: &str) -> (r: String)
    requires
        s@.len() > 0,
    ensures
        r@ == s@.subrange(1, s@.len() as int),
{
    let v = to_chars(s);
    from_chars(&v, 1, v.len())
}

/// Index after the last path separator of `s`, or 0.
pub open spec fn basename_start(s: Seq<char>) -> int
    decreases s.len(),
{
    if s.len() == 0 {
        0
    } else if s.last() == '/' || s.last() == '\\' {
        s.len() as int
    } else {
        basename_start(s.drop_last())
    }
}

/// Index of the last `.` of `s`, or the length of `s`.
pub open spec fn extension_start(s: Seq<char>) -> int {
    let at = last_dot(s);
    if at < 0 {
        s.len() as int
    } else {
        at
    }
}

/// Index of the last `.` of `s`, or -1.
pub open spec fn last_dot(s: Seq<char>) -> int
    decreases s.len(),
{
    if s.len() == 0 {
        -1
    } else if s.last() == '.' {
        s.len() - 1
    } else {
        last_dot(s.drop_last())
    }
}

/// The final path component of `s` without its extension. Both `/` and `\`
/// separate components.
pub open spec fn spec_file_stem(s: Seq<char>) -> Seq<char> {
    let base = s.subrange(basename_start(s), s.len() as int);
    base.subrange(0, extension_start(base))
}

/// Both indices lie in the string.
pub proof fn lemma_stem_bounds(s: Seq<char>)
    ensures
        0 <= basename_start(s) <= s.len(),
        -1 <= last_dot(s) < s.len(),
        0 <= extension_start(s) <= s.len(),
    decreases s.len(),
{
    if s.len() > 0 {
        lemma_stem_bounds(s.drop_last());
    }
}

/// The final path component of `name` without its extension.
pub fn file_stem(name: &str) -> (r: String)
    ensures
        r@ == spec_file_stem(name@),
{
    let v = to_chars(name);
    let mut start: usize = v.len();
    assert(v@.subrange(0, v@.len() as int) =~= v@);
    while start > 0 && v[start - 1] != '/' && v[start - 1] != '\\'
        invariant
            start <= v@.len(),
            basename_start(v@) == basename_start(v@.subrange(0, start as int)),
        decreases start,
    {
        assert(v@.subrange(0, start as int).drop_last() =~= v@.subrange(0, start - 1));
        start = start - 1;
    }
    let ghost base = v@.subrange(start as int, v@.len() as int);
    let mut end: usize = v.len();
    assert(base.subrange(0, base.len() as int) =~= base);
    while end > start && v[end - 1] != '.'
        invariant
            start <= end <= v@.len(),
            base == v@.subrange(start as int, v@.len() as int),
            last_dot(base) == last_dot(base.subrange(0, end - start)),
        decreases end,
    {
        assert(base.subrange(0, end - start).drop_last() =~= base.subrange(0, end - start - 1));
        end = end - 1;
    }
    proof {
        lemma_stem_bounds(v@);
        lemma_stem_bounds(base);
    }
    if end == start {
        from_chars(&v, start, v.len())
    } else {
        assert(v@.subrange(start as int, end - 1) =~= base.subrange(0, end - start - 1));
        from_chars(&v, start, end - 1)
    }
}

/// `c` where it may stand in a file name, else `_`.
pub open spec fn safe_file_char(c: char) -> char {
    if alphanumeric(c) || c == '_' || c == '-' {
        c
    } else {
        '_'
    }
}

/// Every character of `s` made safe for a file name.
pub open spec fn spec_safe_file_name(s: Seq<char>) -> Seq<char> {
    s.map_values(|c: char| safe_file_char(c))
}

/// Replaces what may not stand in a file name by `_`.
pub fn safe_file_name(s: &str) -> (r: String)
    ensures
        r@ == spec_safe_file_name(s@),
{
    let v = to_chars(s);
    let mut r = String::new();
    let mut i: usize = 0;
    while i < v.len()
        invariant
            v@ == s@,
            i <= v@.len(),
            r@ == spec_safe_file_name(s@.subrange(0, i as int)),
        decreases v@.len() - i,
    {
        let c = v[i];
        if c.is_alphanumeric() || c == '_' || c == '-' {
            r.push(c);
        } else {
            r.push('_');
        }
        i = i + 1;
        assert(r@ =~= spec_safe_file_name(s@.subrange(0, i as int)));
    }
    assert(s@.subrange(0, s@.len() as int) =~= s@);
    r
}

/// The character of a digit below 16.
pub open spec fn digit_char(d: int) -> char {
    if d < 10 {
        (48 + d) as char
    } else {
        (97 + (d - 10)) as char
    }
}

/// Lower-case digits of `n` in base 10 or 16, without leading zeros.
pub open spec fn digits(n: nat, base: nat) -> Seq<char>
    decreases n,
{
    if base < 2 || n < base {
        seq![digit_char(n as int)]
    } else {
        proof {
            assert(n / base < n) by (nonlinear_arith)
                requires
                    base >= 2,
                    n >= base,
            ;
        }
        digits(n / base, base).push(digit_char((n % base) as int))
    }
}

/// `s` with `0` in front of it until it has `width` characters.
pub open spec fn zero_padded(s: Seq<char>, width: nat) -> Seq<char> {
    if s.len() >= width {
        s
    } else {
        Seq::new((width - s.len()) as nat, |i: int| '0') + s
    }
}

fn digit(d: u8) -> (c: char)
    requires
        d < 16,
    ensures
        c == digit_char(d as int),
{
    if d < 10 {
        (48u8 + d) as char
    } else {
        (97u8 + (d - 10)) as char
    }
}

/// Formats `n` in base 10 or 16.
pub fn format_base(n: u64, base: u64) -> (r: String)
    requires
        base == 10 || base == 16,
    ensures
        r@ == digits(n as nat, base as nat),
    decreases n,
{
    if n < base {
        let mut r = String::new();
        r.push(digit(n as u8));
        assert(r@ =~= digits(n as nat, base as nat));
        r
    } else {
        assert(n / base < n) by (nonlinear_arith)
            requires
                base >= 2,
                n >= base,
        ;
        let mut r = format_base(n / base, base);
        let d: u64 = n % base;
        r.push(digit(d as u8));
        r
    }
}

/// Formats `n` in lower-case hexadecimal.
pub fn hex(n: u64) -> (r: String)
    ensures
        r@ == digits(n as nat, 16),
{
    format_base(n, 16)
}

/// Formats `n` in decimal.
pub fn decimal(n: u64) -> (r: String)
    ensures
        r@ == digits(n as nat, 10),
{
    format_base(n, 10)
}

/// `digits` is not empty and has no dot.
pub proof fn lemma_digits_have_no_dot(n: nat, base: nat)
    requires
        2 <= base <= 16,
    ensures
        digits(n, base).len() > 0,
        forall|i: int| 0 <= i < digits(n, base).len() ==> #[trigger] digits(n, base)[i] != '.',
    decreases n,
{
    if n >= base {
        assert(n / base < n) by (nonlinear_arith)
            requires
                base >= 2,
                n >= base,
        ;
        assert(n % base < base) by (nonlinear_arith)
            requires
                base >= 2,
        ;
        lemma_digits_have_no_dot(n / base, base);
    }
}

/// Different numbers have different digits.
pub proof fn lemma_digits_distinct(n: nat, m: nat, base: nat)
    requires
        2 <= base <= 16,
        digits(n, base) == digits(m, base),
    ensures
        n == m,
    decreases n,
{
    let d = digits(n, base);
    lemma_digits_have_no_dot(n, base);
    if n >= base {
        lemma_digits_have_no_dot(n / base, base);
    }
    if m >= base {
        lemma_digits_have_no_dot(m / base, base);
    }
    assert(n % base < base && m % base < base && n / base < n + 1 && (n >= base ==> n / base < n)
        && n == base * (n / base) + n % base && m == base * (m / base) + m % base && (n < base ==> n
        % base == n) && (m < base ==> m % base == m)) by (nonlinear_arith)
        requires
            base >= 2,
    ;
    if n >= base && m >= base {
        assert(d.drop_last() =~= digits(n / base, base));
        assert(d.drop_last() =~= digits(m / base, base));
        lemma_digits_distinct(n / base, m / base, base);
        assert(d.last() == digit_char((n % base) as int));
        assert(d.last() == digit_char((m % base) as int));
    } else {
        assert(d.last() == digit_char((n % base) as int));
        assert(d.last() == digit_char((m % base) as int));
    }
}

/// Puts zeros in front of `s` until it has `width` characters.
pub fn pad_zeros(s: &str, width: usize) -> (r: String)
    ensures
        r@ == zero_padded(s@, width as nat),
{
    let n: usize = s.unicode_len();
    let mut r = String::new();
    let mut i: usize = n;
    while i < width
        invariant
            n == s@.len(),
            n <= i,
            n <= width ==> i <= width,
            width < n ==> i == n,
            r@ == Seq::new((i - n) as nat, |j: int| '0'),
        decreases width - i,
    {
        r.push('0');
        i = i + 1;
        assert(r@ =~= Seq::new((i - n) as nat, |j: int| '0'));
    }
    r.append(s);
    assert(r@ =~= zero_padded(s@, width as nat));
    r
}

/// Formats `n` in decimal with at least four digits.
pub fn decimal4(n: u64) -> (r: String)
    ensures
        r@ == zero_padded(digits(n as nat, 10), 4),
{
    let d = decimal(n);
    pad_zeros(d.as_str(), 4)
}

/// Formats a byte in hexadecimal with at least two digits.
pub fn hex2(n: u8) -> (r: String)
    ensures
        r@ == zero_padded(digits(n as nat, 16), 2),
{
    let d = hex(n as u64);
    pad_zeros(d.as_str(), 2)
}

/// Bytes that a character takes in UTF-8.
pub open spec fn utf8_width(c: char) -> nat {
    if (c as u32) < 0x80 {
        1
    } else if (c as u32) < 0x800 {
        2
    } else if (c as u32) < 0x10000 {
        3
    } else {
        4
    }
}

/// Bytes that a text takes in UTF-8.
pub open spec fn utf8_size(s: Seq<char>) -> nat
    decreases s.len(),
{
    if s.len() == 0 {
        0
    } else {
        utf8_size(s.drop_last()) + utf8_width(s.last())
    }
}

/// Number of characters, counted from `i`, that fit `limit` bytes when `used`
/// are taken.
pub open spec fn fitting_chars(s: Seq<char>, i: int, used: nat, limit: nat) -> int
    decreases s.len() - i,
{
    if i < 0 || i >= s.len() || used + utf8_width(s[i]) > limit {
        i
    } else {
        fitting_chars(s, i + 1, used + utf8_width(s[i]), limit)
    }
}

/// The longest beginning of `s` that takes no more than `limit` bytes in UTF-8.
pub open spec fn byte_prefix(s: Seq<char>, limit: nat) -> Seq<char> {
    s.subrange(0, fitting_chars(s, 0, 0, limit))
}

fn char_width(c: char) -> (n: usize)
    ensures
        n == utf8_width(c),
{
    if (c as u32) < 0x80 {
        1
    } else if (c as u32) < 0x800 {
        2
    } else if (c as u32) < 0x10000 {
        3
    } else {
        4
    }
}

/// `c` where it may stand in the name of an object file, else `_`.
pub open spec fn object_file_char(c: char) -> char {
    if alphanumeric(c) || c == '_' || c == '-' || c == '.' {
        c
    } else {
        '_'
    }
}

/// Index, from `i` on, of the first character that is neither `.` nor `_`.
pub open spec fn lead_end(s: Seq<char>, i: int) -> int
    decreases s.len() - i,
{
    if i < 0 || i >= s.len() || !(s[i] == '.' || s[i] == '_') {
        i
    } else {
        lead_end(s, i + 1)
    }
}

/// The name of an object file for a symbol: what may not stand in a file name is
/// replaced, dots and underscores at its start go, and it is cut to 200 bytes.
pub open spec fn spec_symbol_file(name: Seq<char>) -> Seq<char> {
    let safe = name.map_values(|c: char| object_file_char(c));
    let cut = byte_prefix(safe.subrange(lead_end(safe, 0), safe.len() as int), 200);
    if cut.len() == 0 {
        "unknown"@
    } else {
        cut
    }
}

/// Where dots and underscores at the start end lies in the text.
pub proof fn lemma_lead_end(s: Seq<char>, i: int)
    requires
        0 <= i <= s.len(),
    ensures
        i <= lead_end(s, i) <= s.len(),
    decreases s.len() - i,
{
    if i < s.len() && (s[i] == '.' || s[i] == '_') {
        lemma_lead_end(s, i + 1);
    }
}

/// What fits is part of the text.
pub proof fn lemma_fitting_chars(s: Seq<char>, i: int, used: nat, limit: nat)
    requires
        0 <= i <= s.len(),
    ensures
        i <= fitting_chars(s, i, used, limit) <= s.len(),
    decreases s.len() - i,
{
    if i < s.len() && used + utf8_width(s[i]) <= limit {
        lemma_fitting_chars(s, i + 1, used + utf8_width(s[i]), limit);
    }
}

/// Names an object file for a symbol.
pub fn symbol_file(name: &str) -> (r: String)
    ensures
        r@ == spec_symbol_file(name@),
{
    let v = to_chars(name);
    let mut safe: Vec<char> = Vec::new();
    let ghost all = name@.map_values(|c: char| object_file_char(c));
    let mut i: usize = 0;
    while i < v.len()
        invariant
            v@ == name@,
            all == name@.map_values(|c: char| object_file_char(c)),
            i <= v@.len(),
            safe@ == all.subrange(0, i as int),
        decreases v@.len() - i,
    {
        let c = v[i];
        if c.is_alphanumeric() || c == '_' || c == '-' || c == '.' {
            safe.push(c);
        } else {
            safe.push('_');
        }
        i = i + 1;
        assert(safe@ =~= all.subrange(0, i as int));
    }
    assert(safe@ =~= all);
    let mut start: usize = 0;
    while start < safe.len() && (safe[start] == '.' || safe[start] == '_')
        invariant
            start <= safe@.len(),
            lead_end(safe@, 0) == lead_end(safe@, start as int),
        decreases safe@.len() - start,
    {
        start = start + 1;
    }
    let ghost rest = safe@.subrange(start as int, safe@.len() as int);
    let mut end: usize = start;
    let mut used: usize = 0;
    while end < safe.len() && used + char_width(safe[end]) <= 200
        invariant
            start <= end <= safe@.len(),
            used <= 200,
            rest == safe@.subrange(start as int, safe@.len() as int),
            fitting_chars(rest, 0, 0, 200) == fitting_chars(rest, end - start, used as nat, 200),
        decreases safe@.len() - end,
    {
        assert(rest[end - start] == safe@[end as int]);
        used = used + char_width(safe[end]);
        end = end + 1;
    }
    proof {
        if end < safe@.len() {
            assert(rest[end - start] == safe@[end as int]);
        }
        assert(safe@.subrange(start as int, end as int) =~= rest.subrange(0, end - start));
    }
    if end == start {
        owned("unknown")
    } else {
        from_chars(&safe, start, end)
    }
}

/// True when `a` does not come behind `b` in a dictionary of code points.
pub open spec fn text_le(a: Seq<char>, b: Seq<char>) -> bool
    decreases a.len(),
{
    if a.len() == 0 {
        true
    } else if b.len() == 0 {
        false
    } else if a[0] != b[0] {
        a[0] < b[0]
    } else {
        text_le(a.drop_first(), b.drop_first())
    }
}

/// Any two texts compare.
pub proof fn lemma_text_le_total(a: Seq<char>, b: Seq<char>)
    ensures
        text_le(a, b) || text_le(b, a),
        text_le(a, b) && text_le(b, a) ==> a == b,
    decreases a.len(),
{
    if a.len() > 0 && b.len() > 0 && a[0] == b[0] {
        lemma_text_le_total(a.drop_first(), b.drop_first());
        if a.drop_first() == b.drop_first() {
            assert(a =~= seq![a[0]] + a.drop_first());
            assert(b =~= seq![b[0]] + b.drop_first());
        }
    } else if a.len() == 0 && b.len() == 0 {
        assert(a =~= b);
    }
}

/// Comparisons of texts chain.
pub proof fn lemma_text_le_transitive(a: Seq<char>, b: Seq<char>, c: Seq<char>)
    requires
        text_le(a, b),
        text_le(b, c),
    ensures
        text_le(a, c),
    decreases a.len(),
{
    if a.len() > 0 && b.len() > 0 && c.len() > 0 && a[0] == b[0] && b[0] == c[0] {
        lemma_text_le_transitive(a.drop_first(), b.drop_first(), c.drop_first());
    }
}

/// True when `a` comes before `b` in a dictionary of code points.
pub open spec fn text_lt(a: Seq<char>, b: Seq<char>) -> bool {
    text_le(a, b) && a != b
}

/// Of two different texts, one comes before the other.
pub proof fn lemma_text_lt(a: Seq<char>, b: Seq<char>)
    ensures
        !(text_lt(a, b) && text_lt(b, a)),
        text_lt(a, b) || text_lt(b, a) || a == b,
{
    lemma_text_le_total(a, b);
}

/// What comes before a text comes before what comes behind it.
pub proof fn lemma_text_lt_chain(a: Seq<char>, b: Seq<char>, c: Seq<char>)
    requires
        text_lt(a, b),
        text_lt(b, c),
    ensures
        text_lt(a, c),
{
    lemma_text_le_transitive(a, b, c);
    lemma_text_le_total(a, b);
}

/// Tests whether `a` comes before `b` in a dictionary of code points.
pub fn comes_before(a: &str, b: &str) -> (r: bool)
    ensures
        r == text_lt(a@, b@),
{
    let x = to_chars(a);
    let y = to_chars(b);
    let mut i: usize = 0;
    assert(a@.subrange(0, a@.len() as int) =~= a@);
    assert(b@.subrange(0, b@.len() as int) =~= b@);
    while i < x.len() && i < y.len() && x[i] == y[i]
        invariant
            x@ == a@,
            y@ == b@,
            i <= x@.len(),
            i <= y@.len(),
            text_le(a@, b@) == text_le(
                a@.subrange(i as int, a@.len() as int),
                b@.subrange(i as int, b@.len() as int),
            ),
            a@.subrange(0, i as int) == b@.subrange(0, i as int),
        decreases x@.len() - i,
    {
        proof {
            let p = a@.subrange(i as int, a@.len() as int);
            let q = b@.subrange(i as int, b@.len() as int);
            assert(p.drop_first() =~= a@.subrange(i + 1, a@.len() as int));
            assert(q.drop_first() =~= b@.subrange(i + 1, b@.len() as int));
            assert(a@.subrange(0, i + 1) =~= a@.subrange(0, i as int).push(a@[i as int]));
            assert(b@.subrange(0, i + 1) =~= b@.subrange(0, i as int).push(b@[i as int]));
        }
        i = i + 1;
    }
    proof {
        if i == a@.len() && i == b@.len() {
            assert(a@ =~= b@);
        } else if i < a@.len() && i < b@.len() {
            assert(a@[i as int] != b@[i as int]);
        }
    }
    if i >= y.len() {
        false
    } else if i >= x.len() {
        true
    } else {
        x[i] < y[i]
    }
}

/// An optional string as text.
pub open spec fn text_of(s: Option<String>) -> Option<Seq<char>> {
    match s {
        Some(t) => Some(t@),
        None => None,
    }
}

/// A copy of an optional string.
pub fn clone_text(s: &Option<String>) -> (r: Option<String>)
    ensures
        r == *s,
{
    match s {
        Some(t) => Some(t.clone()),
        None => None,
    }
}

/// The texts that a map of strings holds.
pub open spec fn texts(m: Map<u64, String>) -> Map<u64, Seq<char>> {
    m.map_values(|s: String| s@)
}

/// The texts that a vector of strings holds.
pub open spec fn text_list(v: Seq<String>) -> Seq<Seq<char>> {
    v.map_values(|s: String| s@)
}

/// `s` with spaces behind it until it has `width` characters.
pub open spec fn padded_right(s: Seq<char>, width: nat) -> Seq<char> {
    if s.len() >= width {
        s
    } else {
        s + Seq::new((width - s.len()) as nat, |i: int| ' ')
    }
}

/// `s` with spaces in front of it until it has `width` characters.
pub open spec fn padded_left(s: Seq<char>, width: nat) -> Seq<char> {
    if s.len() >= width {
        s
    } else {
        Seq::new((width - s.len()) as nat, |i: int| ' ') + s
    }
}

fn spaces(n: usize) -> (r: String)
    ensures
        r@ == Seq::new(n as nat, |i: int| ' '),
{
    let mut r = String::new();
    let mut i: usize = 0;
    while i < n
        invariant
            i <= n,
            r@ == Seq::new(i as nat, |j: int| ' '),
        decreases n - i,
    {
        r.push(' ');
        i = i + 1;
        assert(r@ =~= Seq::new(i as nat, |j: int| ' '));
    }
    assert(r@ =~= Seq::new(n as nat, |j: int| ' '));
    r
}

/// Puts spaces behind `s` until it has `width` characters.
pub fn pad_right(s: &str, width: usize) -> (r: String)
    ensures
        r@ == padded_right(s@, width as nat),
{
    let n: usize = s.unicode_len();
    if n >= width {
        owned(s)
    } else {
        let gap = spaces(width - n);
        joined(s, gap.as_str())
    }
}

/// Puts spaces in front of `s` until it has `width` characters.
pub fn pad_left(s: &str, width: usize) -> (r: String)
    ensures
        r@ == padded_left(s@, width as nat),
{
    let n: usize = s.unicode_len();
    if n >= width {
        owned(s)
    } else {
        let gap = spaces(width - n);
        joined(gap.as_str(), s)
    }
}

/// Start of the characters before `end` that, taken from the last one back, fit
/// `limit` bytes when `used` are taken.
pub open spec fn fitting_start(s: Seq<char>, end: int, used: nat, limit: nat) -> int
    decreases end,
{
    if end <= 0 || end > s.len() || used + utf8_width(s[end - 1]) > limit {
        end
    } else {
        fitting_start(s, end - 1, used + utf8_width(s[end - 1]), limit)
    }
}

/// The longest ending of `s` that takes no more than `limit` bytes in UTF-8.
pub open spec fn byte_suffix(s: Seq<char>, limit: nat) -> Seq<char> {
    s.subrange(fitting_start(s, s.len() as int, 0, limit), s.len() as int)
}

/// `s`, or where it takes more than `max` bytes in UTF-8, an ellipsis and the
/// longest ending that takes no more than `max - 1`.
pub open spec fn spec_truncate(s: Seq<char>, max: nat) -> Seq<char> {
    if utf8_size(s) <= max {
        s
    } else {
        "\u{2026}"@ + byte_suffix(s, (max - 1) as nat)
    }
}

/// A text fits a number of bytes exactly when all of it is taken from the back.
proof fn lemma_fitting_start(s: Seq<char>, end: int, used: nat, limit: nat)
    requires
        0 <= end <= s.len(),
    ensures
        0 <= fitting_start(s, end, used, limit) <= end,
        used <= limit ==> ((fitting_start(s, end, used, limit) == 0) == (used + utf8_size(
            s.subrange(0, end),
        ) <= limit)),
    decreases end,
{
    if end > 0 {
        let front = s.subrange(0, end);
        assert(front.drop_last() =~= s.subrange(0, end - 1));
        assert(front.last() == s[end - 1]);
        if used + utf8_width(s[end - 1]) <= limit {
            lemma_fitting_start(s, end - 1, used + utf8_width(s[end - 1]), limit);
        }
    } else {
        assert(s.subrange(0, end) =~= Seq::empty());
    }
}

fn suffix_start(v: &Vec<char>, limit: usize) -> (start: usize)
    ensures
        start == fitting_start(v@, v@.len() as int, 0, limit as nat),
        start <= v@.len(),
{
    let mut start: usize = v.len();
    let mut used: usize = 0;
    while start > 0 && char_width(v[start - 1]) <= limit - used
        invariant
            start <= v@.len(),
            used <= limit,
            fitting_start(v@, v@.len() as int, 0, limit as nat) == fitting_start(
                v@,
                start as int,
                used as nat,
                limit as nat,
            ),
        decreases start,
    {
        used = used + char_width(v[start - 1]);
        start = start - 1;
    }
    start
}

/// Cuts `s` from the front where it takes more than `max` bytes.
pub fn truncate(s: &str, max: usize) -> (r: String)
    requires
        max > 0,
    ensures
        r@ == spec_truncate(s@, max as nat),
{
    let v = to_chars(s);
    let whole = suffix_start(&v, max);
    proof {
        lemma_fitting_start(s@, s@.len() as int, 0, max as nat);
        assert(s@.subrange(0, s@.len() as int) =~= s@);
    }
    if whole == 0 {
        owned(s)
    } else {
        let start = suffix_start(&v, max - 1);
        let rest = from_chars(&v, start, v.len());
        joined("\u{2026}", rest.as_str())
    }
}

/// True when `t` stands in `s` at `i`.
pub open spec fn stands_at(s: Seq<char>, t: Seq<char>, i: int) -> bool {
    0 <= i && i + t.len() <= s.len() && s.subrange(i, i + t.len()) == t
}

/// True when `t` stands somewhere in `s`.
pub open spec fn has_substring(s: Seq<char>, t: Seq<char>) -> bool {
    exists|i: int| stands_at(s, t, i)
}

/// Tests whether `t` stands somewhere in `s`.
pub fn contains_text(s: &str, t: &str) -> (r: bool)
    ensures
        r == has_substring(s@, t@),
{
    let a = to_chars(s);
    let b = to_chars(t);
    let n: usize = a.len();
    let m: usize = b.len();
    let mut i: usize = 0;
    let mut more: bool = m <= n;
    while more
        invariant
            a@ == s@,
            b@ == t@,
            n == a@.len(),
            m == b@.len(),
            more ==> i + m <= n,
            more ==> (forall|k: int| 0 <= k < i ==> !stands_at(s@, t@, k)),
            !more ==> (forall|k: int| !stands_at(s@, t@, k)),
        decreases (if more { n - m - i + 1 } else { 0 }),
    {
        let mut j: usize = 0;
        while j < m && a[i + j] == b[j]
            invariant
                a@ == s@,
                b@ == t@,
                n == a@.len(),
                m == b@.len(),
                i + m <= n,
                j <= m,
                forall|k: int| 0 <= k < j ==> a@[i + k] == b@[k],
            decreases m - j,
        {
            j = j + 1;
        }
        if j == m {
            assert(s@.subrange(i as int, i + m) =~= t@);
            assert(stands_at(s@, t@, i as int));
            return true;
        }
        assert(!stands_at(s@, t@, i as int)) by {
            if stands_at(s@, t@, i as int) {
                assert(s@.subrange(i as int, i + m)[j as int] == t@[j as int]);
            }
        }
        if i == n - m {
            more = false;
        } else {
            i = i + 1;
        }
    }
    false
}

/// Numbers of more than one digit begin with a digit other than 0.
proof fn lemma_lead_digit(n: nat, base: nat)
    requires
        2 <= base <= 16,
        n >= base,
    ensures
        digits(n, base).len() >= 2,
        digits(n, base)[0] != '0',
    decreases n,
{
    assert(1 <= n / base < n) by (nonlinear_arith)
        requires
            base >= 2,
            n >= base,
    ;
    let rest = digits(n / base, base);
    lemma_digits_have_no_dot(n / base, base);
    if n / base >= base {
        lemma_lead_digit(n / base, base);
    }
    assert(digits(n, base)[0] == rest[0]);
}

/// Decimal digits have no underscore.
proof fn lemma_no_underscore(n: nat)
    ensures
        forall|i: int| 0 <= i < digits(n, 10).len() ==> #[trigger] digits(n, 10)[i] != '_',
    decreases n,
{
    if n >= 10 {
        lemma_no_underscore(n / 10);
        let rest = digits(n / 10, 10);
        assert forall|i: int| 0 <= i < digits(n, 10).len() implies #[trigger] digits(n, 10)[i]
            != '_' by {
            if i < rest.len() {
                assert(digits(n, 10)[i] == rest[i]);
            }
        }
    }
}

/// Different numbers stay different when zeros are put in front of them.
proof fn lemma_padded_distinct(a: nat, b: nat, width: nat)
    requires
        zero_padded(digits(a, 10), width) == zero_padded(digits(b, 10), width),
    ensures
        a == b,
{
    let (da, db) = (digits(a, 10), digits(b, 10));
    let (pa, pb) = (zero_padded(da, width), zero_padded(db, width));
    lemma_digits_have_no_dot(a, 10);
    lemma_digits_have_no_dot(b, 10);
    if a >= 10 {
        lemma_lead_digit(a, 10);
    }
    if b >= 10 {
        lemma_lead_digit(b, 10);
    }
    let at = pa.len() - da.len();
    let bt = pb.len() - db.len();
    assert(da =~= pa.subrange(at, pa.len() as int));
    assert(db =~= pb.subrange(bt, pb.len() as int));
    if at < bt {
        assert(pa[at] == da[0]);
        assert(pb[at] == '0');
    } else if bt < at {
        assert(pb[bt] == db[0]);
        assert(pa[bt] == '0');
    }
    lemma_digits_distinct(a, b, 10);
}

/// File names that begin with different numbers are different.
pub proof fn lemma_numbered_names_differ(
    a: nat,
    b: nat,
    width: nat,
    x: Seq<char>,
    y: Seq<char>,
    ext: Seq<char>,
)
    requires
        zero_padded(digits(a, 10), width) + "_"@ + x + ext == zero_padded(digits(b, 10), width)
            + "_"@ + y + ext,
    ensures
        a == b,
{
    reveal_strlit("_");
    let (pa, pb) = (zero_padded(digits(a, 10), width), zero_padded(digits(b, 10), width));
    let full = pa + "_"@ + x + ext;
    lemma_no_underscore(a);
    lemma_no_underscore(b);
    assert(forall|i: int| 0 <= i < pa.len() ==> #[trigger] pa[i] != '_');
    assert(forall|i: int| 0 <= i < pb.len() ==> #[trigger] pb[i] != '_');
    assert(full[pa.len() as int] == '_');
    assert(full[pb.len() as int] == '_');
    if pa.len() < pb.len() {
        assert(full[pa.len() as int] == pb[pa.len() as int]);
    } else if pb.len() < pa.len() {
        assert(full[pb.len() as int] == pa[pb.len() as int]);
    }
    assert(pa =~= full.subrange(0, pa.len() as int));
    assert(pb =~= full.subrange(0, pb.len() as int));
    lemma_padded_distinct(a, b, width);
}

} // verus!
