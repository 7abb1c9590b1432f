//! Character-level pieces of the assembler: splitting, trimming, number
//! syntax and comparisons on sequences of `char`.
use vstd::prelude::*;

verus! {

/// The characters with the Unicode `White_Space` property, which
/// `char::is_whitespace` and `str::trim` go by.
pub open spec fn is_white_space(c: char) -> bool {
    let u = c as u32;
    ||| 0x09 <= u <= 0x0D
    ||| u == 0x20
    ||| u == 0x85
    ||| u == 0xA0
    ||| u == 0x1680
    ||| 0x2000 <= u <= 0x200A
    ||| u == 0x2028
    ||| u == 0x2029
    ||| u == 0x202F
    ||| u == 0x205F
    ||| u == 0x3000
}

/// Whether `c` has the Unicode `White_Space` property.
pub fn white_space(c: char) -> (r: bool)
    ensures
        r == is_white_space(c),
{
    let u = c as u32;
    (0x09 <= u && u <= 0x0D) || u == 0x20 || u == 0x85 || u == 0xA0 || u == 0x1680 || (0x2000 <= u
        && u <= 0x200A) || u == 0x2028 || u == 0x2029 || u == 0x202F || u == 0x205F || u == 0x3000
}

/// Which characters separate the pieces of a split.
#[derive(Clone, Copy, Debug, PartialEq, Eq, Structural)]
pub enum Separator {
    /// A line feed: the pieces are lines.
    Newline,
    /// White space: the pieces are words.
    WhiteSpace,
    /// A space or a comma: the pieces are the operands of an instruction.
    SpaceOrComma,
}

pub open spec fn separates(sep: Separator, c: char) -> bool {
    match sep {
        Separator::Newline => c == '\n',
        Separator::WhiteSpace => is_white_space(c),
        Separator::SpaceOrComma => c == ' ' || c == ',',
    }
}

/// All pieces of `s` between separators, empty ones included: `k` separators
/// make `k + 1` pieces.
pub open spec fn pieces(s: Seq<char>, sep: Separator) -> Seq<Seq<char>>
    decreases s.len(),
{
    if s.len() == 0 {
        seq![Seq::<char>::empty()]
    } else {
        let p = pieces(s.drop_last(), sep);
        if separates(sep, s.last()) {
            p.push(Seq::<char>::empty())
        } else {
            p.update(p.len() - 1, p.last().push(s.last()))
        }
    }
}

/// The non-empty members of `ls`, in order.
pub open spec fn non_empty(ls: Seq<Seq<char>>) -> Seq<Seq<char>>
    decreases ls.len(),
{
    if ls.len() == 0 {
        ls
    } else {
        let p = non_empty(ls.drop_last());
        if ls.last().len() > 0 { p.push(ls.last()) } else { p }
    }
}

/// The views of a vector of character vectors.
pub open spec fn views(v: Seq<Vec<char>>) -> Seq<Seq<char>> {
    Seq::new(v.len(), |k: int| v[k]@)
}

pub proof fn lemma_pieces_not_empty(s: Seq<char>, sep: Separator)
    ensures
        pieces(s, sep).len() >= 1,
    decreases s.len(),
{
    if s.len() > 0 {
        lemma_pieces_not_empty(s.drop_last(), sep);
    }
}

/// Splits `s` at every separator character.
pub fn split(s: &Vec<char>, sep: Separator) -> (r: Vec<Vec<char>>)
    ensures
        views(r@) == pieces(s@, sep),
{
    let mut done: Vec<Vec<char>> = Vec::new();
    let mut cur: Vec<char> = Vec::new();
    let mut k: usize = 0;
    while k < s.len()
        invariant
            k <= s@.len(),
            views(done@).push(cur@) == pieces(s@.take(k as int), sep),
        decreases s@.len() - k,
    {
        let c = s[k];
        proof {
            lemma_pieces_not_empty(s@.take(k as int), sep);
            assert(s@.take(k + 1).drop_last() =~= s@.take(k as int));
            assert(s@.take(k + 1).last() == c);
        }
        let is_sep = match sep {
            Separator::Newline => c == '\n',
            Separator::WhiteSpace => white_space(c),
            Separator::SpaceOrComma => c == ' ' || c == ',',
        };
        if is_sep {
            let ghost before = views(done@);
            done.push(cur);
            cur = Vec::new();
            assert(views(done@) =~= before.push(views(done@).last()));
            assert(views(done@).push(cur@) =~= pieces(s@.take(k + 1), sep));
        } else {
            let ghost before = views(done@);
            cur.push(c);
            assert(views(done@).push(cur@) =~= pieces(s@.take(k + 1), sep));
        }
        k += 1;
    }
    done.push(cur);
    assert(s@.take(s@.len() as int) =~= s@);
    assert(views(done@) =~= pieces(s@, sep));
    done
}


/// A copy of `s`.
pub fn copy_chars(s: &Vec<char>) -> (r: Vec<char>)
    ensures
        r@ == s@,
{
    let mut r: Vec<char> = Vec::new();
    let mut k: usize = 0;
    while k < s.len()
        invariant
            k <= s@.len(),
            r@ == s@.take(k as int),
        decreases s@.len() - k,
    {
        r.push(s[k]);
        k += 1;
        assert(r@ =~= s@.take(k as int));
    }
    assert(s@.take(s@.len() as int) =~= s@);
    r
}

/// The non-empty pieces, in order.
pub fn keep_non_empty(v: &Vec<Vec<char>>) -> (r: Vec<Vec<char>>)
    ensures
        views(r@) == non_empty(views(v@)),
{
    let mut r: Vec<Vec<char>> = Vec::new();
    let mut k: usize = 0;
    while k < v.len()
        invariant
            k <= v@.len(),
            views(r@) == non_empty(views(v@).take(k as int)),
        decreases v@.len() - k,
    {
        proof {
            assert(views(v@).take(k + 1).drop_last() =~= views(v@).take(k as int));
            assert(views(v@).take(k + 1).last() == v@[k as int]@);
        }
        if v[k].len() > 0 {
            let piece = copy_chars(&v[k]);
            let ghost before = views(r@);
            r.push(piece);
            assert(views(r@) =~= before.push(piece@));
        }
        k += 1;
    }
    assert(views(v@).take(v@.len() as int) =~= views(v@));
    r
}

/// `s` with leading white space removed.
pub open spec fn trim_start(s: Seq<char>) -> Seq<char>
    decreases s.len(),
{
    if s.len() > 0 && is_white_space(s[0]) { trim_start(s.drop_first()) } else { s }
}

/// `s` with trailing white space removed.
pub open spec fn trim_end(s: Seq<char>) -> Seq<char>
    decreases s.len(),
{
    if s.len() > 0 && is_white_space(s.last()) { trim_end(s.drop_last()) } else { s }
}

/// `s` with white space removed at both ends, as `str::trim` does.
pub open spec fn trim(s: Seq<char>) -> Seq<char> {
    trim_end(trim_start(s))
}

proof fn lemma_trim_start_skip(s: Seq<char>, a: int)
    requires
        0 <= a <= s.len(),
        forall|j: int| 0 <= j < a ==> is_white_space(s[j]),
    ensures
        trim_start(s) == trim_start(s.skip(a)),
    decreases a,
{
    if a > 0 {
        assert(s.drop_first().skip(a - 1) =~= s.skip(a));
        lemma_trim_start_skip(s.drop_first(), a - 1);
    } else {
        assert(s.skip(0) =~= s);
    }
}

proof fn lemma_trim_end_take(s: Seq<char>, b: int)
    requires
        0 <= b <= s.len(),
        forall|j: int| b <= j < s.len() ==> is_white_space(s[j]),
    ensures
        trim_end(s) == trim_end(s.take(b)),
    decreases s.len() - b,
{
    if b < s.len() {
        assert(s.drop_last().take(b) =~= s.take(b));
        lemma_trim_end_take(s.drop_last(), b);
    } else {
        assert(s.take(b) =~= s);
    }
}

/// A trimmed non-empty sequence starts with a character that is not white space.
pub proof fn lemma_trim_first(s: Seq<char>)
    ensures
        trim(s).len() > 0 ==> !is_white_space(trim(s)[0]),
{
    lemma_trim_start_first(s);
    lemma_trim_end_keeps_first(trim_start(s));
}

proof fn lemma_trim_start_first(s: Seq<char>)
    ensures
        trim_start(s).len() > 0 ==> !is_white_space(trim_start(s)[0]),
    decreases s.len(),
{
    if s.len() > 0 && is_white_space(s[0]) {
        lemma_trim_start_first(s.drop_first());
    }
}

proof fn lemma_trim_end_keeps_first(s: Seq<char>)
    ensures
        trim_end(s).len() > 0 ==> trim_end(s)[0] == s[0],
    decreases s.len(),
{
    if s.len() > 0 && is_white_space(s.last()) {
        lemma_trim_end_keeps_first(s.drop_last());
    }
}

/// Removes white space at both ends.
pub fn trim_chars(s: &Vec<char>) -> (r: Vec<char>)
    ensures
        r@ == trim(s@),
{
    let mut a: usize = 0;
    while a < s.len() && white_space(s[a])
        invariant
            a <= s@.len(),
            forall|j: int| 0 <= j < a ==> is_white_space(s@[j]),
        decreases s@.len() - a,
    {
        a += 1;
    }
    let mut b: usize = s.len();
    while b > a && white_space(s[b - 1])
        invariant
            a <= b <= s@.len(),
            forall|j: int| b <= j < s@.len() ==> is_white_space(s@[j]),
        decreases b,
    {
        b -= 1;
    }
    let mut r: Vec<char> = Vec::new();
    let mut k: usize = a;
    while k < b
        invariant
            a <= k <= b,
            b <= s@.len(),
            r@ == s@.subrange(a as int, k as int),
        decreases b - k,
    {
        r.push(s[k]);
        k += 1;
    }
    proof {
        lemma_trim_start_skip(s@, a as int);
        let t = s@.skip(a as int);
        if a < s@.len() {
            assert(!is_white_space(t[0]));
            assert(trim_start(t) == t);
        } else {
            assert(t.len() == 0);
        }
        assert forall|j: int| b - a <= j < t.len() implies is_white_space(t[j]) by {
            assert(t[j] == s@[a + j]);
        }
        lemma_trim_end_take(t, b - a);
        let u = t.take(b - a);
        if b > a {
            assert(u.last() == s@[b - 1]);
        }
        assert(trim_end(u) == u);
        assert(u =~= s@.subrange(a as int, b as int));
    }
    r
}

/// The part of `s` before its first `;`, which starts a comment.
pub open spec fn before_comment(s: Seq<char>) -> Seq<char>
    decreases s.len(),
{
    if s.len() == 0 {
        s
    } else if s[0] == ';' {
        Seq::<char>::empty()
    } else {
        seq![s[0]] + before_comment(s.drop_first())
    }
}

proof fn lemma_before_comment_prefix(s: Seq<char>, k: int)
    requires
        0 <= k <= s.len(),
        forall|j: int| 0 <= j < k ==> s[j] != ';',
        k == s.len() || s[k] == ';',
    ensures
        before_comment(s) == s.take(k),
    decreases k,
{
    if k > 0 {
        lemma_before_comment_prefix(s.drop_first(), k - 1);
        assert(seq![s[0]] + s.drop_first().take(k - 1) =~= s.take(k));
    } else {
        assert(s.take(0) =~= Seq::<char>::empty());
    }
}

/// Cuts off a comment.
pub fn strip_comment(s: &Vec<char>) -> (r: Vec<char>)
    ensures
        r@ == before_comment(s@),
{
    let mut r: Vec<char> = Vec::new();
    let mut k: usize = 0;
    while k < s.len() && s[k] != ';'
        invariant
            k <= s@.len(),
            forall|j: int| 0 <= j < k ==> s@[j] != ';',
            r@ == s@.take(k as int),
        decreases s@.len() - k,
    {
        r.push(s[k]);
        k += 1;
        assert(r@ =~= s@.take(k as int));
    }
    proof {
        lemma_before_comment_prefix(s@, k as int);
    }
    r
}

/// A source line made ready: comment cut off, white space trimmed.
pub open spec fn clean_line(l: Seq<char>) -> Seq<char> {
    trim(before_comment(l))
}

/// The lines of a source text that hold something: each line without its
/// comment and surrounding white space, empty ones dropped. (`str::lines`
/// also drops the `\r` of a `\r\n` and an empty last line; trimming and
/// dropping empty lines make both invisible, so splitting at `\n` gives the
/// same result.)
pub open spec fn source_lines(src: Seq<char>) -> Seq<Seq<char>> {
    non_empty(pieces(src, Separator::Newline).map_values(|l: Seq<char>| clean_line(l)))
}

/// The cleaned, non-empty lines of `src`.
pub fn clean_lines(src: &Vec<char>) -> (r: Vec<Vec<char>>)
    ensures
        views(r@) == source_lines(src@),
{
    let raw = split(src, Separator::Newline);
    let mut cleaned: Vec<Vec<char>> = Vec::new();
    let mut k: usize = 0;
    while k < raw.len()
        invariant
            k <= raw@.len(),
            views(raw@) == pieces(src@, Separator::Newline),
            cleaned@.len() == k,
            forall|j: int| 0 <= j < k ==> #[trigger] cleaned@[j]@ == clean_line(raw@[j]@),
        decreases raw@.len() - k,
    {
        let stripped = strip_comment(&raw[k]);
        let line = trim_chars(&stripped);
        cleaned.push(line);
        k += 1;
    }
    assert(views(cleaned@) =~= pieces(src@, Separator::Newline).map_values(|l: Seq<char>| clean_line(l))) by {
        assert forall|j: int| 0 <= j < cleaned@.len() implies views(cleaned@)[j]
            == pieces(src@, Separator::Newline).map_values(|l: Seq<char>| clean_line(l))[j] by {
            assert(views(raw@)[j] == raw@[j]@);
        }
    }
    keep_non_empty(&cleaned)
}


/// The value of `c` as a digit (letters count from ten up, in either case),
/// or 36 for a character that is no digit in any radix up to 36.
pub open spec fn digit_value(c: char) -> int {
    let u = c as u32;
    if 0x30 <= u <= 0x39 {
        u - 0x30
    } else if 0x61 <= u <= 0x7A {
        u - 0x61 + 10
    } else if 0x41 <= u <= 0x5A {
        u - 0x41 + 10
    } else {
        36
    }
}

/// The number that the digits `d` spell in base `radix`, if all are digits of that base.
pub open spec fn digits_value(d: Seq<char>, radix: int) -> Option<int>
    decreases d.len(),
{
    if d.len() == 0 {
        Some(0)
    } else {
        match digits_value(d.drop_last(), radix) {
            Some(v) => if digit_value(d.last()) < radix {
                Some(v * radix + digit_value(d.last()))
            } else {
                None
            },
            None => None,
        }
    }
}

/// `u16::from_str_radix(s, radix)`: an optional `+`, then at least one digit
/// of the radix, the number fitting 16 bits.
pub open spec fn parse_radix(s: Seq<char>, radix: int) -> Option<u16> {
    let d = if s.len() > 0 && s[0] == '+' { s.drop_first() } else { s };
    if d.len() == 0 {
        None
    } else {
        match digits_value(d, radix) {
            Some(v) => if v <= 0xFFFF { Some(v as u16) } else { None },
            None => None,
        }
    }
}

/// A number: hexadecimal after a `0x` prefix, decimal otherwise.
pub open spec fn parse_number(s: Seq<char>) -> Option<u16> {
    if s.len() >= 2 && s[0] == '0' && s[1] == 'x' {
        parse_radix(s.skip(2), 16)
    } else {
        parse_radix(s, 10)
    }
}

/// A register operand: the hexadecimal number after its first character.
/// `None` where assembly aborts: the operand is empty or
/// starts with a character of more than one byte in UTF-8.
pub open spec fn parse_register(s: Seq<char>) -> Option<Option<u16>> {
    if s.len() == 0 || s[0] as u32 >= 0x80 {
        None
    } else {
        Some(parse_radix(s.skip(1), 16))
    }
}

proof fn lemma_digits_prefix(d: Seq<char>, radix: int, j: int)
    requires
        0 <= j <= d.len(),
        radix >= 1,
        digits_value(d, radix) is Some,
    ensures
        digits_value(d.take(j), radix) is Some,
        digits_value(d.take(j), radix)->0 <= digits_value(d, radix)->0,
        digits_value(d.take(j), radix)->0 >= 0,
    decreases d.len(),
{
    if j == d.len() {
        assert(d.take(j) =~= d);
        lemma_digits_nonneg(d, radix);
    } else {
        assert(d.drop_last().take(j) =~= d.take(j));
        lemma_digits_prefix(d.drop_last(), radix, j);
        lemma_digits_nonneg(d.drop_last(), radix);
        let v = digits_value(d.drop_last(), radix)->0;
        assert(v * radix >= v) by (nonlinear_arith)
            requires
                v >= 0,
                radix >= 1,
        ;
    }
}

proof fn lemma_digits_nonneg(d: Seq<char>, radix: int)
    requires
        radix >= 1,
    ensures
        digits_value(d, radix) matches Some(v) ==> v >= 0,
    decreases d.len(),
{
    if d.len() > 0 {
        lemma_digits_nonneg(d.drop_last(), radix);
        if let Some(v) = digits_value(d.drop_last(), radix) {
            assert(v * radix >= 0) by (nonlinear_arith)
                requires
                    v >= 0,
                    radix >= 1,
            ;
        }
    }
}

fn digit_of(c: char) -> (r: u32)
    ensures
        r == digit_value(c),
{
    let u = c as u32;
    if 0x30 <= u && u <= 0x39 {
        u - 0x30
    } else if 0x61 <= u && u <= 0x7A {
        u - 0x61 + 10
    } else if 0x41 <= u && u <= 0x5A {
        u - 0x41 + 10
    } else {
        36
    }
}

/// Parses `s[start..]` as `u16::from_str_radix` does.
pub fn parse_radix_from(s: &Vec<char>, start: usize, radix: u32) -> (r: Option<u16>)
    requires
        start <= s@.len(),
        2 <= radix <= 36,
    ensures
        r == parse_radix(s@.skip(start as int), radix as int),
{
    let ghost t = s@.skip(start as int);
    let mut a = start;
    if a < s.len() && s[a] == '+' {
        a += 1;
    }
    let ghost d = s@.skip(a as int);
    assert(d =~= (if t.len() > 0 && t[0] == '+' { t.drop_first() } else { t }));
    if a == s.len() {
        return None;
    }
    let mut value: u32 = 0;
    let mut k: usize = a;
    while k < s.len()
        invariant
            a <= k <= s@.len(),
            d == s@.skip(a as int),
            t == s@.skip(start as int),
            d == (if t.len() > 0 && t[0] == '+' { t.drop_first() } else { t }),
            2 <= radix <= 36,
            value <= 0xFFFF,
            digits_value(d.take(k - a), radix as int) == Some(value as int),
        decreases s@.len() - k,
    {
        let dv = digit_of(s[k]);
        proof {
            assert(d.take(k + 1 - a).drop_last() =~= d.take(k - a));
            assert(d.take(k + 1 - a).last() == s@[k as int]);
        }
        if dv >= radix {
            proof {
                assert(digits_value(d.take(k + 1 - a), radix as int) is None);
                if digits_value(d, radix as int) is Some {
                    lemma_digits_prefix(d, radix as int, k + 1 - a);
                }
            }
            return None;
        }
        assert(value * radix <= 0xFFFF * 36) by (nonlinear_arith)
            requires
                value <= 0xFFFF,
                radix <= 36,
        ;
        let next = value * radix + dv;
        if next > 0xFFFF {
            proof {
                if digits_value(d, radix as int) is Some {
                    lemma_digits_prefix(d, radix as int, k + 1 - a);
                }
            }
            return None;
        }
        value = next;
        k += 1;
    }
    assert(d.take(s@.len() - a) =~= d);
    Some(value as u16)
}

/// Parses a number: hexadecimal after `0x`, decimal otherwise.
pub fn parse_number_chars(s: &Vec<char>) -> (r: Option<u16>)
    ensures
        r == parse_number(s@),
{
    if s.len() >= 2 && s[0] == '0' && s[1] == 'x' {
        parse_radix_from(s, 2, 16)
    } else {
        assert(s@.skip(0) =~= s@);
        parse_radix_from(s, 0, 10)
    }
}

/// Whether a register operand can be read: it is not empty and its first
/// character takes one byte in UTF-8, so that the number after it starts at
/// a character boundary.
pub fn register_operand_readable(s: &Vec<char>) -> (r: bool)
    ensures
        r == parse_register(s@) is Some,
{
    s.len() > 0 && (s[0] as u32) < 0x80
}

/// Whether two character sequences are equal.
pub fn chars_equal(a: &Vec<char>, b: &Vec<char>) -> (r: bool)
    ensures
        r == (a@ == b@),
{
    if a.len() != b.len() {
        return false;
    }
    let mut k: usize = 0;
    while k < a.len()
        invariant
            k <= a@.len(),
            a@.len() == b@.len(),
            forall|j: int| 0 <= j < k ==> a@[j] == b@[j],
        decreases a@.len() - k,
    {
        if a[k] != b[k] {
            return false;
        }
        k += 1;
    }
    assert(a@ =~= b@);
    true
}

/// What `str::to_uppercase` makes of the text `s`: the Unicode uppercase
/// mapping, character by character, some characters becoming several.
pub uninterp spec fn uppercase(s: Seq<char>) -> Seq<char>;

/// Whether every character of `s` is ASCII.
pub open spec fn is_ascii_text(s: Seq<char>) -> bool {
    forall|i: int| 0 <= i < s.len() ==> (#[trigger] s[i] as u32) < 0x80
}

/// The ASCII capital of `c`: `a` to `z` become `A` to `Z`, every other
/// character stays as it is.
pub open spec fn ascii_capital(c: char) -> char {
    let u = c as u32;
    if 0x61 <= u <= 0x7A { (u - 0x20) as char } else { c }
}

/// `s` with each character replaced by its ASCII capital.
pub open spec fn ascii_capitals(s: Seq<char>) -> Seq<char> {
    s.map_values(|c: char| ascii_capital(c))
}

/// The uppercase form of a word: its ASCII capitals where the word is
/// ASCII, the Unicode mapping otherwise.
pub open spec fn capitalized(s: Seq<char>) -> Seq<char> {
    if is_ascii_text(s) { ascii_capitals(s) } else { uppercase(s) }
}

/// Two characters with the same ASCII capital have the same digit value,
/// and one is `+` exactly when the other is.
pub proof fn lemma_capital_digit(a: char, b: char)
    requires
        ascii_capital(a) == ascii_capital(b),
    ensures
        digit_value(a) == digit_value(b),
        (a == '+') == (b == '+'),
        (a == '0') == (b == '0'),
{
    let ua = a as u32;
    let ub = b as u32;
    let ca = ascii_capital(a) as u32;
    assert(0x61 <= ua <= 0x7A ==> ca == ua - 0x20);
    assert(!(0x61 <= ua <= 0x7A) ==> ca == ua);
    assert(0x61 <= ub <= 0x7A ==> ca == ub - 0x20);
    assert(!(0x61 <= ub <= 0x7A) ==> ca == ub);
}

/// Words that agree up to ASCII case spell the same number in any radix.
pub proof fn lemma_digits_case(d: Seq<char>, e: Seq<char>, radix: int)
    requires
        d.len() == e.len(),
        forall|i: int| 0 <= i < d.len() ==> ascii_capital(#[trigger] d[i]) == ascii_capital(e[i]),
    ensures
        digits_value(d, radix) == digits_value(e, radix),
    decreases d.len(),
{
    if d.len() > 0 {
        assert forall|i: int| 0 <= i < d.drop_last().len() implies
            ascii_capital(#[trigger] d.drop_last()[i]) == ascii_capital(e.drop_last()[i]) by {
            assert(d.drop_last()[i] == d[i] && e.drop_last()[i] == e[i]);
        }
        lemma_digits_case(d.drop_last(), e.drop_last(), radix);
        assert(ascii_capital(d[d.len() - 1]) == ascii_capital(e[e.len() - 1]));
        lemma_capital_digit(d.last(), e.last());
    }
}

/// Words that agree up to ASCII case read as the same number in any radix.
pub proof fn lemma_radix_case(s: Seq<char>, t: Seq<char>, radix: int)
    requires
        s.len() == t.len(),
        forall|i: int| 0 <= i < s.len() ==> ascii_capital(#[trigger] s[i]) == ascii_capital(t[i]),
    ensures
        parse_radix(s, radix) == parse_radix(t, radix),
{
    if s.len() > 0 {
        assert(ascii_capital(s[0]) == ascii_capital(t[0]));
        lemma_capital_digit(s[0], t[0]);
        if s[0] == '+' {
            assert forall|i: int| 0 <= i < s.drop_first().len() implies
                ascii_capital(#[trigger] s.drop_first()[i]) == ascii_capital(t.drop_first()[i]) by {
                assert(s.drop_first()[i] == s[i + 1] && t.drop_first()[i] == t[i + 1]);
            }
            lemma_digits_case(s.drop_first(), t.drop_first(), radix);
        } else {
            lemma_digits_case(s, t, radix);
        }
    }
}

/// Digits mean their values: `0` to `9` are zero to nine, and the letters
/// `a` to `z` and `A` to `Z` are ten to thirty-five.
pub proof fn lemma_digit_meaning()
    ensures
        forall|k: int| 0 <= k < 10 ==> #[trigger] digit_value((0x30 + k) as char) == k,
        forall|k: int| 0 <= k < 26 ==> #[trigger] digit_value((0x61 + k) as char) == 10 + k,
        forall|k: int| 0 <= k < 26 ==> #[trigger] digit_value((0x41 + k) as char) == 10 + k,
{
}

/// Decimal numerals read as their values: a single digit reads as itself,
/// and a digit appended to digits that spell `v` spells ten times `v` plus the digit.
pub proof fn lemma_decimal_meaning(d: Seq<char>, k: int)
    requires
        0 <= k < 10,
    ensures
        parse_number(seq![(0x30 + k) as char]) == Some(k as u16),
        digits_value(d, 10) is Some ==>
            digits_value(d.push((0x30 + k) as char), 10) == Some(digits_value(d, 10)->0 * 10 + k),
{
    lemma_digit_meaning();
    let c = (0x30 + k) as char;
    assert(digit_value(c) == k);
    let one = seq![c];
    assert(one.drop_last() =~= Seq::<char>::empty());
    assert(one.len() == 1 && one[0] == c && one.last() == c);
    assert(c as u32 == 0x30 + k);
    assert(c != '+');
    assert(digits_value(one.drop_last(), 10) == Some(0int));
    assert(digits_value(one, 10) == Some(k));
    assert(d.push(c).drop_last() =~= d);
}

/// A word that reads as a number starts with `+` or a decimal digit.
pub proof fn lemma_number_start(s: Seq<char>)
    requires
        parse_number(s) is Some,
    ensures
        s.len() > 0,
        s[0] == '+' || digit_value(s[0]) < 10,
{
    if s.len() >= 2 && s[0] == '0' && s[1] == 'x' {
    } else {
        let d = if s.len() > 0 && s[0] == '+' { s.drop_first() } else { s };
        if !(s.len() > 0 && s[0] == '+') {
            lemma_digits_prefix(d, 10, 1);
            assert(d.take(1).drop_last() =~= Seq::<char>::empty());
            assert(d.take(1).last() == d[0]);
        }
    }
}

/// Words with the same ASCII capitals agree up to case character by character.
pub proof fn lemma_capitals_pointwise(s: Seq<char>, t: Seq<char>)
    requires
        s.len() == t.len(),
        ascii_capitals(s) == ascii_capitals(t),
    ensures
        forall|i: int| 0 <= i < s.len() ==> ascii_capital(#[trigger] s[i]) == ascii_capital(t[i]),
{
    assert forall|i: int| 0 <= i < s.len() implies ascii_capital(#[trigger] s[i]) == ascii_capital(t[i]) by {
        assert(ascii_capitals(s)[i] == ascii_capital(s[i]));
        assert(ascii_capitals(t)[i] == ascii_capital(t[i]));
    }
}

/// Numbers and registers read alike whatever the ASCII case of their letters,
/// so long as the `x` of a `0x` prefix is the same in both.
pub proof fn lemma_number_case(s: Seq<char>, t: Seq<char>)
    requires
        s.len() == t.len(),
        is_ascii_text(s),
        is_ascii_text(t),
        ascii_capitals(s) == ascii_capitals(t),
        s.len() >= 2 && s[0] == '0' ==> s[1] == t[1],
    ensures
        parse_number(s) == parse_number(t),
        parse_register(s) == parse_register(t),
{
    lemma_capitals_pointwise(s, t);
    if s.len() >= 1 {
        lemma_capital_digit(s[0], t[0]);
        assert((s[0] as u32) < 0x80);
        assert((t[0] as u32) < 0x80);
        assert forall|i: int| 0 <= i < s.skip(1).len() implies
            ascii_capital(#[trigger] s.skip(1)[i]) == ascii_capital(t.skip(1)[i]) by {
            assert(s.skip(1)[i] == s[i + 1] && t.skip(1)[i] == t[i + 1]);
        }
        lemma_radix_case(s.skip(1), t.skip(1), 16);
    }
    if s.len() >= 2 {
        assert forall|i: int| 0 <= i < s.skip(2).len() implies
            ascii_capital(#[trigger] s.skip(2)[i]) == ascii_capital(t.skip(2)[i]) by {
            assert(s.skip(2)[i] == s[i + 2] && t.skip(2)[i] == t[i + 2]);
        }
        lemma_radix_case(s.skip(2), t.skip(2), 16);
    }
    lemma_radix_case(s, t, 10);
}

/// `str::to_uppercase` on the text that `s` holds. The contract claims that
/// the result is a function of the characters, named `uppercase`, and that
/// on ASCII text it turns `a` to `z` into `A` to `Z` and keeps every other
/// character; what it does beyond ASCII is left unsaid.
#[verifier::external_body]
pub(crate) fn to_uppercase(s: &Vec<char>) -> (r: Vec<char>)
    ensures
        r@ == uppercase(s@),
        is_ascii_text(s@) ==> r@ == ascii_capitals(s@),
{
    s.iter().collect::<String>().to_uppercase().chars().collect()
}

/// The characters of `s`.
pub fn chars_of(s: &str) -> (r: Vec<char>)
    ensures
        r@ == s@,
{
    let mut r: Vec<char> = Vec::new();
    for c in it: s.chars()
        invariant
            r@ == it.seq().take(it.index() as int),
    {
        r.push(c);
    }
    r
}

} // verus!
