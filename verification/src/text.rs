//! Text as sequences of characters: what the standard string operations mean,
//! and executable versions of them.
use vstd::arithmetic::power::pow;
use vstd::prelude::*;
use vstd::slice::slice_subrange;

verus! {

/// `String::push` appends one character.
pub assume_specification[ String::push ](s: &mut String, c: char)
    ensures
        final(s)@ == old(s)@.push(c),
;

/// Whether `c` has the Unicode property `White_Space`.
pub open spec fn is_space(c: char) -> bool {
    ||| '\u{9}' <= c <= '\u{d}'
    ||| c == ' '
    ||| c == '\u{85}'
    ||| c == '\u{a0}'
    ||| c == '\u{1680}'
    ||| '\u{2000}' <= c <= '\u{200a}'
    ||| c == '\u{2028}'
    ||| c == '\u{2029}'
    ||| c == '\u{202f}'
    ||| c == '\u{205f}'
    ||| c == '\u{3000}'
}

/// Whether `c` is an ASCII decimal digit.
pub open spec fn is_digit(c: char) -> bool {
    '0' <= c <= '9'
}

/// A set of characters that a run of text can be made of.
#[derive(Clone, Copy)]
pub enum Class {
    /// White space.
    Space,
    /// Anything but white space.
    Word,
    /// ASCII decimal digits.
    Digit,
    /// Anything but this character.
    Not(char),
    /// This character alone.
    Only(char),
}

impl Class {
    /// Whether `c` belongs to the class.
    pub open spec fn has(self, c: char) -> bool {
        match self {
            Class::Space => is_space(c),
            Class::Word => !is_space(c),
            Class::Digit => is_digit(c),
            Class::Not(other) => c != other,
            Class::Only(other) => c == other,
        }
    }

    /// Whether `c` belongs to the class.
    pub fn contains(self, c: char) -> (r: bool)
        ensures
            r == self.has(c),
    {
        match self {
            Class::Space => space(c),
            Class::Word => !space(c),
            Class::Digit => '0' <= c && c <= '9',
            Class::Not(other) => c != other,
            Class::Only(other) => c == other,
        }
    }
}

fn space(c: char) -> (r: bool)
    ensures
        r == is_space(c),
{
    ('\u{9}' <= c && c <= '\u{d}') || c == ' ' || c == '\u{85}' || c == '\u{a0}' || c == '\u{1680}'
        || ('\u{2000}' <= c && c <= '\u{200a}') || c == '\u{2028}' || c == '\u{2029}'
        || c == '\u{202f}' || c == '\u{205f}' || c == '\u{3000}'
}

/// How many characters at the start of `s` belong to `class`.
pub open spec fn run(s: Seq<char>, class: Class) -> nat
    decreases s.len(),
{
    if s.len() > 0 && class.has(s[0]) {
        1 + run(s.drop_first(), class)
    } else {
        0
    }
}

/// The run is the longest prefix of characters of the class.
pub proof fn lemma_run(s: Seq<char>, class: Class)
    ensures
        run(s, class) <= s.len(),
        forall|i: int| 0 <= i < run(s, class) ==> class.has(#[trigger] s[i]),
        run(s, class) < s.len() ==> !class.has(s[run(s, class) as int]),
    decreases s.len(),
{
    if s.len() > 0 && class.has(s[0]) {
        lemma_run(s.drop_first(), class);
        assert forall|i: int| 0 <= i < run(s, class) implies class.has(#[trigger] s[i]) by {
            if i > 0 {
                assert(s[i] == s.drop_first()[i - 1]);
            }
        }
    }
}

/// A prefix of characters of the class, with none after it, is the run.
pub proof fn lemma_run_is(s: Seq<char>, class: Class, n: int)
    requires
        0 <= n <= s.len(),
        forall|i: int| 0 <= i < n ==> class.has(#[trigger] s[i]),
        n < s.len() ==> !class.has(s[n]),
    ensures
        run(s, class) == n,
    decreases s.len(),
{
    if n > 0 {
        assert forall|i: int| 0 <= i < n - 1 implies class.has(#[trigger] s.drop_first()[i]) by {
            assert(s.drop_first()[i] == s[i + 1]);
        }
        assert(class.has(s[0]));
        lemma_run_is(s.drop_first(), class, n - 1);
    }
}

/// `s` without leading white space.
pub open spec fn trim_start(s: Seq<char>) -> Seq<char> {
    s.skip(run(s, Class::Space) as int)
}

/// `s` without the characters of `class` that it ends in.
pub open spec fn trim_end_of(s: Seq<char>, class: Class) -> Seq<char>
    decreases s.len(),
{
    if s.len() > 0 && class.has(s.last()) {
        trim_end_of(s.drop_last(), class)
    } else {
        s
    }
}

/// `s` without trailing white space.
pub open spec fn trim_end(s: Seq<char>) -> Seq<char> {
    trim_end_of(s, Class::Space)
}

/// `s` without leading and trailing white space.
pub open spec fn trim(s: Seq<char>) -> Seq<char> {
    trim_end(trim_start(s))
}

/// The parts of `s` between stretches of white space.
pub open spec fn words(s: Seq<char>) -> Seq<Seq<char>>
    decreases s.len(),
{
    let t = trim_start(s);
    let n = run(t, Class::Word);
    if n == 0 || t.len() > s.len() || n > t.len() {
        seq![]
    } else {
        seq![t.take(n as int)] + words(t.skip(n as int))
    }
}

/// A line without the carriage return that may end it.
pub open spec fn without_cr(line: Seq<char>) -> Seq<char> {
    if line.len() > 0 && line.last() == '\r' {
        line.drop_last()
    } else {
        line
    }
}

/// The lines of `s`: each ends at a newline, or a carriage return and a
/// newline, and the last may have no ending.
pub open spec fn lines(s: Seq<char>) -> Seq<Seq<char>>
    decreases s.len(),
{
    let n = run(s, Class::Not('\n'));
    if s.len() == 0 {
        seq![]
    } else if n >= s.len() {
        seq![s]
    } else {
        seq![without_cr(s.take(n as int))] + lines(s.skip(n as int + 1))
    }
}

/// What comes before and after the first `c` in `s`.
pub open spec fn split_once(s: Seq<char>, c: char) -> Option<(Seq<char>, Seq<char>)> {
    let n = run(s, Class::Not(c));
    if n < s.len() {
        Some((s.take(n as int), s.skip(n as int + 1)))
    } else {
        None
    }
}

/// What follows `prefix` in `s`.
pub open spec fn strip_prefix(s: Seq<char>, prefix: Seq<char>) -> Option<Seq<char>> {
    if prefix.is_prefix_of(s) {
        Some(s.skip(prefix.len() as int))
    } else {
        None
    }
}

/// How far `c` is past the digit zero.
pub open spec fn digit_value(c: char) -> int {
    (c as int) - ('0' as int)
}

/// Whether every character of `s` is a digit below `radix`.
pub open spec fn all_digits(s: Seq<char>, radix: nat) -> bool {
    forall|i: int| 0 <= i < s.len() ==> 0 <= digit_value(#[trigger] s[i]) < radix
}

/// The number that the digits of `s` spell.
pub open spec fn digits_value(s: Seq<char>, radix: nat) -> nat
    decreases s.len(),
{
    if s.len() == 0 {
        0
    } else {
        digits_value(s.drop_last(), radix) * radix + digit_value(s.last()) as nat
    }
}

/// The whole number no greater than `max` that `s` spells: at least one digit
/// below `radix`, after an optional plus sign.
pub open spec fn unsigned(s: Seq<char>, radix: nat, max: nat) -> Option<nat> {
    let digits = if s.len() > 0 && s[0] == '+' {
        s.skip(1)
    } else {
        s
    };
    if digits.len() > 0 && all_digits(digits, radix) && digits_value(digits, radix) <= max {
        Some(digits_value(digits, radix))
    } else {
        None
    }
}

/// The 64-bit whole number that `s` spells in decimal, after an optional sign.
pub open spec fn signed(s: Seq<char>) -> Option<int> {
    let digits = if s.len() > 0 && (s[0] == '+' || s[0] == '-') {
        s.skip(1)
    } else {
        s
    };
    let value = if s.len() > 0 && s[0] == '-' {
        -(digits_value(digits, 10) as int)
    } else {
        digits_value(digits, 10) as int
    };
    if digits.len() > 0 && all_digits(digits, 10) && i64::MIN <= value <= i64::MAX {
        Some(value)
    } else {
        None
    }
}

/// The character for a decimal digit.
pub open spec fn digit_char(d: nat) -> char {
    (('0' as nat) + d) as char
}

/// `n` in decimal, without leading zeros.
pub open spec fn decimal(n: nat) -> Seq<char>
    decreases n,
{
    if n < 10 {
        seq![digit_char(n)]
    } else {
        decimal(n / 10).push(digit_char(n % 10))
    }
}

/// `count` copies of `c`.
pub open spec fn repeated(c: char, count: nat) -> Seq<char> {
    Seq::new(count, |i: int| c)
}

/// `s` with zeros before it, to make it at least `width` characters.
pub open spec fn zero_padded(s: Seq<char>, width: nat) -> Seq<char> {
    if s.len() < width {
        repeated('0', (width - s.len()) as nat) + s
    } else {
        s
    }
}

/// `s` with spaces after it, to make it at least `width` characters.
pub open spec fn space_padded(s: Seq<char>, width: nat) -> Seq<char> {
    if s.len() < width {
        s + repeated(' ', (width - s.len()) as nat)
    } else {
        s
    }
}

/// What several texts, in a vector, say.
pub open spec fn texts(v: Seq<String>) -> Seq<Seq<char>> {
    v.map_values(|s: String| s@)
}

/// The characters of `s`.
pub fn chars_of(s: &str) -> (r: Vec<char>)
    ensures
        r@ == s@,
{
    let mut r: Vec<char> = Vec::new();
    for c in it: s.chars()
        invariant
            it.seq() == s@,
            r@ == s@.take(it.index()),
    {
        r.push(c);
    }
    r
}

/// The text made of these characters.
pub fn text_of(chars: &[char]) -> (r: String)
    ensures
        r@ == chars@,
{
    let mut r = String::new();
    for i in 0..chars.len()
        invariant
            r@ == chars@.take(i as int),
    {
        r.push(chars[i]);
    }
    assert(chars@.take(chars.len() as int) == chars@);
    r
}

/// Whether two texts are the same.
pub fn same(a: &str, b: &str) -> (r: bool)
    ensures
        r == (a@ == b@),
{
    let x = chars_of(a);
    let y = chars_of(b);
    same_chars(&x, &y)
}

/// Whether two texts are the same.
pub fn same_chars(a: &[char], b: &[char]) -> (r: bool)
    ensures
        r == (a@ == b@),
{
    if a.len() != b.len() {
        return false;
    }
    for i in 0..a.len()
        invariant
            a.len() == b.len(),
            forall|j: int| 0 <= j < i ==> a@[j] == b@[j],
    {
        if a[i] != b[i] {
            return false;
        }
    }
    assert(a@ =~= b@);
    true
}

/// What several stretches of text say.
pub open spec fn slices(v: Seq<&[char]>) -> Seq<Seq<char>> {
    v.map_values(|s: &[char]| s@)
}

/// How many characters at the start of `s` belong to `class`.
pub fn run_of(s: &[char], class: Class) -> (n: usize)
    ensures
        n == run(s@, class),
        n <= s@.len(),
{
    let mut n: usize = 0;
    while n < s.len() && class.contains(s[n])
        invariant
            n <= s@.len(),
            forall|i: int| 0 <= i < n ==> class.has(#[trigger] s@[i]),
        decreases s.len() - n,
    {
        n = n + 1;
    }
    proof {
        lemma_run_is(s@, class, n as int);
    }
    n
}

/// `s` from position `from` on.
pub fn rest_of(s: &[char], from: usize) -> (r: &[char])
    requires
        from <= s@.len(),
    ensures
        r@ == s@.skip(from as int),
{
    let r = slice_subrange(s, from, s.len());
    assert(r@ =~= s@.skip(from as int));
    r
}

/// The first `n` characters of `s`.
pub fn first_of(s: &[char], n: usize) -> (r: &[char])
    requires
        n <= s@.len(),
    ensures
        r@ == s@.take(n as int),
{
    let r = slice_subrange(s, 0, n);
    assert(r@ =~= s@.take(n as int));
    r
}

/// `s` without the characters of `class` that it ends in.
pub fn without_end(s: &[char], class: Class) -> (r: &[char])
    ensures
        r@ == trim_end_of(s@, class),
{
    let mut n: usize = s.len();
    assert(s@.take(n as int) =~= s@);
    while n > 0 && class.contains(s[n - 1])
        invariant
            n <= s@.len(),
            trim_end_of(s@.take(n as int), class) == trim_end_of(s@, class),
        decreases n,
    {
        assert(s@.take(n as int).drop_last() =~= s@.take(n - 1));
        n = n - 1;
    }
    first_of(s, n)
}

/// `s` without trailing white space.
pub fn trimmed_end(s: &str) -> (r: String)
    ensures
        r@ == trim_end(s@),
{
    let chars = chars_of(s);
    text_of(without_end(&chars, Class::Space))
}

/// `s` without leading and trailing white space.
pub fn trimmed(s: &[char]) -> (r: &[char])
    ensures
        r@ == trim(s@),
{
    let n = run_of(s, Class::Space);
    without_end(rest_of(s, n), Class::Space)
}

/// The parts of `s` between stretches of white space.
pub fn words_of(s: &[char]) -> (r: Vec<&[char]>)
    ensures
        slices(r@) == words(s@),
{
    let mut r: Vec<&[char]> = Vec::new();
    let mut left = s;
    assert(slices(r@) + words(left@) =~= words(s@));
    loop
        invariant
            slices(r@) + words(left@) == words(s@),
        decreases left@.len(),
    {
        let t = rest_of(left, run_of(left, Class::Space));
        let n = run_of(t, Class::Word);
        if n == 0 {
            assert(slices(r@) =~= slices(r@) + words(left@));
            return r;
        }
        let word = first_of(t, n);
        let ghost before = r@;
        r.push(word);
        proof {
            let tail = words(t@.skip(n as int));
            assert(words(left@) == seq![word@] + tail);
            assert(slices(r@) + tail =~= slices(before) + (seq![word@] + tail));
        }
        left = rest_of(t, n);
    }
}

/// The lines of `s`.
pub fn lines_of(s: &[char]) -> (r: Vec<&[char]>)
    ensures
        slices(r@) == lines(s@),
{
    let mut r: Vec<&[char]> = Vec::new();
    let mut left = s;
    assert(slices(r@) + lines(left@) =~= lines(s@));
    while left.len() > 0
        invariant
            slices(r@) + lines(left@) == lines(s@),
        decreases left@.len(),
    {
        let n = run_of(left, Class::Not('\n'));
        let ghost before = r@;
        if n == left.len() {
            r.push(left);
            assert(slices(r@) =~= slices(before) + lines(left@));
            return r;
        }
        let mut line = first_of(left, n);
        if n > 0 && line[n - 1] == '\r' {
            line = first_of(line, n - 1);
            assert(line@ =~= left@.take(n as int).drop_last());
        }
        r.push(line);
        let next = rest_of(left, n + 1);
        proof {
            let tail = lines(next@);
            assert(lines(left@) == seq![line@] + tail);
            assert(slices(r@) + tail =~= slices(before) + (seq![line@] + tail));
        }
        left = next;
    }
    assert(slices(r@) + lines(left@) =~= slices(r@));
    r
}

/// What comes before and after the first `c` in `s`.
pub fn split_at_first(s: &[char], c: char) -> (r: Option<(&[char], &[char])>)
    ensures
        match r {
            Some((before, after)) => split_once(s@, c) == Some((before@, after@)),
            None => split_once(s@, c) is None,
        },
{
    let n = run_of(s, Class::Not(c));
    if n < s.len() {
        Some((first_of(s, n), rest_of(s, n + 1)))
    } else {
        None
    }
}

/// What follows `prefix` in `s`.
pub fn after_prefix<'a>(s: &'a [char], prefix: &str) -> (r: Option<&'a [char]>)
    ensures
        match r {
            Some(after) => strip_prefix(s@, prefix@) == Some(after@),
            None => strip_prefix(s@, prefix@) is None,
        },
{
    let p = chars_of(prefix);
    if p.len() > s.len() {
        return None;
    }
    if same_chars(first_of(s, p.len()), &p) {
        assert(prefix@.is_prefix_of(s@));
        Some(rest_of(s, p.len()))
    } else {
        proof {
            if prefix@.is_prefix_of(s@) {
                assert(s@.take(p.len() as int) =~= prefix@);
            }
        }
        None
    }
}

/// The digit that `c` is, if it is below `radix`.
fn digit_in(c: char, radix: u64) -> (r: Option<u64>)
    requires
        1 <= radix <= 10,
    ensures
        match r {
            Some(d) => 0 <= digit_value(c) < radix && d == digit_value(c),
            None => !(0 <= digit_value(c) < radix),
        },
{
    if c < '0' || c > '9' {
        return None;
    }
    let d: u64 = c as u64 - '0' as u64;
    if d < radix {
        Some(d)
    } else {
        None
    }
}

/// The number that digits below `radix` spell, if it is at most `max`.
fn digits_of(s: &[char], radix: u64, max: u64) -> (r: Option<u64>)
    requires
        1 <= radix <= 10,
    ensures
        match r {
            Some(n) => s@.len() > 0 && all_digits(s@, radix as nat) && digits_value(s@, radix as nat) == n && n
                <= max,
            None => s@.len() == 0 || !all_digits(s@, radix as nat) || digits_value(s@, radix as nat) > max,
        },
{
    if s.len() == 0 {
        return None;
    }
    let mut value: u64 = 0;
    let mut fits: bool = true;
    for i in 0..s.len()
        invariant
            1 <= radix <= 10,
            forall|j: int| 0 <= j < i ==> 0 <= digit_value(#[trigger] s@[j]) < radix,
            fits ==> digits_value(s@.take(i as int), radix as nat) == value && value <= max,
            !fits ==> digits_value(s@.take(i as int), radix as nat) > max,
    {
        let c = s[i];
        let d: u64 = match digit_in(c, radix) {
            Some(d) => d,
            None => {
                assert(!(0 <= digit_value(s@[i as int]) < radix));
                return None;
            },
        };
        proof {
            let shorter = s@.take(i as int);
            let longer = s@.take(i + 1);
            assert(longer.drop_last() =~= shorter);
            assert(longer.last() == c);
            assert(digits_value(shorter, radix as nat) * radix >= digits_value(shorter, radix as nat))
                by (nonlinear_arith)
                requires
                    radix >= 1,
                    digits_value(shorter, radix as nat) >= 0,
            ;
        }
        if fits {
            match value.checked_mul(radix) {
                None => {
                    fits = false;
                },
                Some(scaled) => match scaled.checked_add(d) {
                    None => {
                        fits = false;
                    },
                    Some(sum) => {
                        value = sum;
                        fits = sum <= max;
                    },
                },
            }
        }
    }
    assert(s@.take(s@.len() as int) =~= s@);
    if fits {
        Some(value)
    } else {
        None
    }
}

/// The whole number that `s` spells, after an optional plus sign.
pub fn unsigned_of(s: &[char], radix: u64, max: u64) -> (r: Option<u64>)
    requires
        1 <= radix <= 10,
    ensures
        match r {
            Some(n) => unsigned(s@, radix as nat, max as nat) == Some(n as nat),
            None => unsigned(s@, radix as nat, max as nat) is None,
        },
{
    if s.len() > 0 && s[0] == '+' {
        digits_of(rest_of(s, 1), radix, max)
    } else {
        digits_of(s, radix, max)
    }
}

/// The 64-bit whole number that `s` spells in decimal, after an optional sign.
pub fn signed_of(s: &[char]) -> (r: Option<i64>)
    ensures
        match r {
            Some(n) => signed(s@) == Some(n as int),
            None => signed(s@) is None,
        },
{
    if s.len() > 0 && s[0] == '-' {
        match digits_of(rest_of(s, 1), 10, 0x8000_0000_0000_0000) {
            None => None,
            Some(n) => if n == 0x8000_0000_0000_0000 {
                Some(i64::MIN)
            } else {
                Some(-(n as i64))
            },
        }
    } else {
        let digits = if s.len() > 0 && s[0] == '+' {
            rest_of(s, 1)
        } else {
            s
        };
        match digits_of(digits, 10, 0x7fff_ffff_ffff_ffff) {
            None => None,
            Some(n) => Some(n as i64),
        }
    }
}

/// The character for a decimal digit.
fn digit_of(d: u64) -> (c: char)
    requires
        d < 10,
    ensures
        c == digit_char(d as nat),
{
    (48u8 + d as u8) as char
}

/// `n` in decimal, without leading zeros.
pub fn decimal_of(n: u64) -> (r: String)
    ensures
        r@ == decimal(n as nat),
    decreases n,
{
    if n < 10 {
        let mut r = String::new();
        r.push(digit_of(n));
        r
    } else {
        let mut r = decimal_of(n / 10);
        r.push(digit_of(n % 10));
        r
    }
}

/// `count` copies of `c`.
fn repeats(c: char, count: usize) -> (r: String)
    ensures
        r@ == repeated(c, count as nat),
{
    let mut r = String::new();
    for i in 0..count
        invariant
            r@ == repeated(c, i as nat),
    {
        r.push(c);
        assert(r@ =~= repeated(c, (i + 1) as nat));
    }
    r
}

/// `s` with zeros before it, to make it at least `width` characters.
pub fn with_zeros(s: &str, width: usize) -> (r: String)
    ensures
        r@ == zero_padded(s@, width as nat),
{
    let n = chars_of(s).len();
    if n < width {
        repeats('0', width - n).concat(s)
    } else {
        s.to_owned()
    }
}

/// `s` with spaces after it, to make it at least `width` characters.
pub fn with_spaces(s: &str, width: usize) -> (r: String)
    ensures
        r@ == space_padded(s@, width as nat),
{
    let n = chars_of(s).len();
    if n < width {
        s.to_owned().concat(&repeats(' ', width - n))
    } else {
        s.to_owned()
    }
}

/// The digits of a number, read again, give the number.
pub proof fn lemma_decimal(n: nat)
    ensures
        decimal(n).len() > 0,
        all_digits(decimal(n), 10),
        digits_value(decimal(n), 10) == n,
    decreases n,
{
    if n >= 10 {
        lemma_decimal(n / 10);
        assert(decimal(n).drop_last() =~= decimal(n / 10));
    } else {
        assert(decimal(n).drop_last() =~= Seq::<char>::empty());
        assert(digits_value(Seq::<char>::empty(), 10) == 0);
    }
}

/// Whether `s` holds no newline.
pub open spec fn unbroken(s: Seq<char>) -> bool {
    forall|i: int| 0 <= i < s.len() ==> #[trigger] s[i] != '\n'
}

/// Whether `s` is one line: a newline ends it, and it holds no other.
pub open spec fn one_line(s: Seq<char>) -> bool {
    &&& s.len() > 0
    &&& s.last() == '\n'
    &&& unbroken(s.drop_last())
}

/// A number in decimal holds no newline.
pub proof fn lemma_decimal_unbroken(n: nat)
    ensures
        unbroken(decimal(n)),
{
    lemma_decimal(n);
}

/// Whether `s` comes before `t` where texts are compared character by character:
/// the first character in which they differ is smaller in `s`.
pub open spec fn sorts_before(s: Seq<char>, t: Seq<char>) -> bool {
    exists|k: int| #[trigger] first_smaller(s, t, k)
}

/// Whether `s` and `t` first differ at `k`, with a smaller character in `s`.
pub open spec fn first_smaller(s: Seq<char>, t: Seq<char>, k: int) -> bool {
    &&& 0 <= k < s.len()
    &&& k < t.len()
    &&& s[k] < t[k]
    &&& forall|i: int| 0 <= i < k ==> #[trigger] s[i] == t[i]
}

/// What is appended matters to the order of two texts of the same length only if
/// they are the same.
pub proof fn lemma_sorts_on(s: Seq<char>, t: Seq<char>, more: Seq<char>, other: Seq<char>)
    requires
        s.len() == t.len(),
    ensures
        sorts_before(s, t) ==> sorts_before(s + more, t + other),
        s == t && sorts_before(more, other) ==> sorts_before(s + more, t + other),
{
    if sorts_before(s, t) {
        let k = choose|k: int| #[trigger] first_smaller(s, t, k);
        assert(first_smaller(s + more, t + other, k));
    }
    if s == t && sorts_before(more, other) {
        let k = choose|k: int| #[trigger] first_smaller(more, other, k);
        assert forall|i: int| 0 <= i < s.len() + k implies #[trigger] (s + more)[i] == (t + other)[i] by {
            if i >= s.len() {
                assert(more[i - s.len()] == other[i - s.len()]);
            }
        }
        assert(first_smaller(s + more, t + other, s.len() + k));
    }
}

/// `parts`, with `sep` between each and the next.
pub open spec fn join(parts: Seq<Seq<char>>, sep: Seq<char>) -> Seq<char>
    decreases parts.len(),
{
    if parts.len() == 0 {
        seq![]
    } else if parts.len() == 1 {
        parts[0]
    } else {
        join(parts.drop_last(), sep) + sep + parts.last()
    }
}

/// What is joined from unbroken parts is unbroken.
pub proof fn lemma_join_unbroken(parts: Seq<Seq<char>>, sep: Seq<char>)
    requires
        unbroken(sep),
        forall|i: int| 0 <= i < parts.len() ==> unbroken(#[trigger] parts[i]),
    ensures
        unbroken(join(parts, sep)),
    decreases parts.len(),
{
    if parts.len() > 1 {
        lemma_join_unbroken(parts.drop_last(), sep);
    }
}

/// `parts`, with `sep` between each and the next.
pub fn joined(parts: &[String], sep: &str) -> (r: String)
    ensures
        r@ == join(texts(parts@), sep@),
{
    let mut r = String::new();
    let ghost all = texts(parts@);
    for i in 0..parts.len()
        invariant
            all == texts(parts@),
            r@ == join(all.take(i as int), sep@),
    {
        proof {
            assert(all.take(i + 1).drop_last() =~= all.take(i as int));
            assert(all.take(i + 1).last() == parts@[i as int]@);
        }
        if i > 0 {
            r.append(sep);
        }
        r.append(parts[i].as_str());
        assert(r@ =~= join(all.take(i + 1), sep@));
    }
    assert(all.take(parts@.len() as int) =~= all);
    r
}

/// A number has no more digits than there are factors of ten in a bound on it.
pub proof fn lemma_decimal_len(n: nat, digits: nat)
    requires
        digits > 0,
        n < pow(10, digits),
    ensures
        decimal(n).len() <= digits,
    decreases digits,
{
    if n >= 10 {
        reveal(pow);
        if digits > 1 {
            lemma_decimal_len(n / 10, (digits - 1) as nat);
        } else {
            assert(pow(10, 0) == 1);
        }
    }
}

/// A 64-bit number has at most twenty digits.
pub proof fn lemma_decimal_short(n: u64)
    ensures
        decimal(n as nat).len() <= 20,
{
    assert(pow(10, 20) > u64::MAX) by {
        reveal_with_fuel(pow, 21);
    }
    lemma_decimal_len(n as nat, 20);
}

/// Whether `s` is white space and nothing else.
pub open spec fn all_space(s: Seq<char>) -> bool {
    forall|i: int| 0 <= i < s.len() ==> is_space(#[trigger] s[i])
}

/// Whether `s` holds no white space.
pub open spec fn no_space(s: Seq<char>) -> bool {
    forall|i: int| 0 <= i < s.len() ==> !is_space(#[trigger] s[i])
}

/// Among the ASCII characters, white space is the space and the five from the tab
/// to the carriage return; the digits are the ten from `0` to `9`.
pub proof fn law_ascii_classes(c: char)
    requires
        (c as int) < 128,
    ensures
        is_space(c) == (c as int == 32 || 9 <= c as int <= 13),
        is_digit(c) == (48 <= c as int <= 57),
{
}

/// White space before a text makes no difference to its words.
pub proof fn law_space_before_words(gap: Seq<char>, s: Seq<char>)
    requires
        all_space(gap),
    ensures
        words(gap + s) == words(s),
    decreases gap.len(),
{
    lemma_run(s, Class::Space);
    let n = run(s, Class::Space) as int;
    assert forall|i: int| 0 <= i < gap.len() + n implies Class::Space.has(#[trigger] (gap + s)[i]) by {
        if i >= gap.len() {
            assert((gap + s)[i] == s[i - gap.len()]);
        }
    }
    lemma_run_is(gap + s, Class::Space, gap.len() + n);
    assert(trim_start(gap + s) =~= trim_start(s));
}

/// A stretch without white space, up to white space or the end, is the first word,
/// and the others are the words of what follows.
pub proof fn law_first_word(word: Seq<char>, s: Seq<char>)
    requires
        word.len() > 0,
        no_space(word),
        s.len() == 0 || is_space(s[0]),
    ensures
        words(word + s) == seq![word] + words(s),
        words(Seq::<char>::empty()) == Seq::<Seq<char>>::empty(),
{
    let t = word + s;
    lemma_run_is(t, Class::Space, 0);
    assert(trim_start(t) =~= t);
    assert forall|i: int| 0 <= i < word.len() implies Class::Word.has(#[trigger] t[i]) by {}
    lemma_run_is(t, Class::Word, word.len() as int);
    assert(t.take(word.len() as int) =~= word);
    assert(t.skip(word.len() as int) =~= s);
    lemma_run_is(Seq::<char>::empty(), Class::Space, 0);
    let none = trim_start(Seq::<char>::empty());
    assert(none =~= Seq::<char>::empty());
    lemma_run_is(none, Class::Word, 0);
}

/// A stretch without a newline, up to a newline (after a carriage return or not),
/// is the first line, and the others are the lines of what follows. What is left at
/// the end is a line too.
pub proof fn law_first_line(line: Seq<char>, s: Seq<char>)
    requires
        unbroken(line),
        line.len() > 0 ==> line.last() != '\r',
    ensures
        lines(line + seq!['\n'] + s) == seq![line] + lines(s),
        lines(line + seq!['\r', '\n'] + s) == seq![line] + lines(s),
        line.len() > 0 ==> lines(line) == seq![line],
        lines(Seq::<char>::empty()) == Seq::<Seq<char>>::empty(),
{
    let n = line.len() as int;
    let t = line + seq!['\n'] + s;
    assert forall|i: int| 0 <= i < n implies Class::Not('\n').has(#[trigger] t[i]) by {
        assert(t[i] == line[i]);
    }
    assert(t[n] == '\n');
    lemma_run_is(t, Class::Not('\n'), n);
    assert(t.take(n) =~= line);
    assert(t.skip(n + 1) =~= s);
    let u = line + seq!['\r', '\n'] + s;
    assert forall|i: int| 0 <= i < n + 1 implies Class::Not('\n').has(#[trigger] u[i]) by {
        if i < n {
            assert(u[i] == line[i]);
        }
    }
    assert(u[n + 1] == '\n');
    lemma_run_is(u, Class::Not('\n'), n + 1);
    assert(u.take(n + 1) =~= line.push('\r'));
    assert(u.take(n + 1).drop_last() =~= line);
    assert(u.skip(n + 2) =~= s);
    if n > 0 {
        assert forall|i: int| 0 <= i < n implies Class::Not('\n').has(#[trigger] line[i]) by {}
        lemma_run_is(line, Class::Not('\n'), n);
    }
}

/// White space at the end goes, up to the last character that is none.
proof fn lemma_trim_end(s: Seq<char>, gap: Seq<char>, class: Class)
    requires
        s.len() > 0 ==> !class.has(s.last()),
        forall|i: int| 0 <= i < gap.len() ==> class.has(#[trigger] gap[i]),
    ensures
        trim_end_of(s + gap, class) == s,
    decreases gap.len(),
{
    if gap.len() > 0 {
        let shorter = gap.drop_last();
        assert((s + gap).last() == gap[gap.len() - 1]);
        assert((s + gap).drop_last() =~= s + shorter);
        lemma_trim_end(s, shorter, class);
    } else {
        assert(s + gap =~= s);
    }
}

/// Trimming takes the white space off both ends, and nothing else.
pub proof fn law_trim(before: Seq<char>, s: Seq<char>, after: Seq<char>)
    requires
        all_space(before),
        all_space(after),
        s.len() > 0,
        !is_space(s[0]),
        !is_space(s.last()),
    ensures
        trim(before + s + after) == s,
        trim_end(s + after) == s,
        trim(before + after).len() == 0,
{
    let t = before + s + after;
    assert forall|i: int| 0 <= i < before.len() implies Class::Space.has(#[trigger] t[i]) by {
        assert(t[i] == before[i]);
    }
    assert(t[before.len() as int] == s[0]);
    lemma_run_is(t, Class::Space, before.len() as int);
    assert(trim_start(t) =~= s + after);
    lemma_trim_end(s, after, Class::Space);
    let blank = before + after;
    assert forall|i: int| 0 <= i < blank.len() implies Class::Space.has(#[trigger] blank[i]) by {
        if i < before.len() {
            assert(blank[i] == before[i]);
        } else {
            assert(blank[i] == after[i - before.len()]);
        }
    }
    lemma_run_is(blank, Class::Space, blank.len() as int);
    assert(trim_start(blank) =~= Seq::<char>::empty());
}

/// What stands before and after the first of a character is what it parts.
pub proof fn law_split_once(before: Seq<char>, c: char, after: Seq<char>)
    requires
        !before.contains(c),
    ensures
        split_once(before + seq![c] + after, c) == Some((before, after)),
        split_once(before, c) is None,
{
    let t = before + seq![c] + after;
    let n = before.len() as int;
    assert forall|i: int| 0 <= i < n implies Class::Not(c).has(#[trigger] t[i]) by {
        assert(t[i] == before[i]);
    }
    assert forall|i: int| 0 <= i < n implies Class::Not(c).has(#[trigger] before[i]) by {}
    assert(t[n] == c);
    lemma_run_is(t, Class::Not(c), n);
    lemma_run_is(before, Class::Not(c), n);
    assert(t.take(n) =~= before);
    assert(t.skip(n + 1) =~= after);
}

/// What follows a prefix is what was put after it, and there is nothing to find
/// where the prefix isn't.
pub proof fn law_strip_prefix(prefix: Seq<char>, after: Seq<char>, other: Seq<char>)
    ensures
        strip_prefix(prefix + after, prefix) == Some(after),
        strip_prefix(other, prefix) matches Some(rest) ==> other == prefix + rest,
        strip_prefix(other, prefix) is None ==> other.len() < prefix.len() || exists|i: int|
            0 <= i < prefix.len() && #[trigger] other[i] != prefix[i],
{
    assert((prefix + after).skip(prefix.len() as int) =~= after);
    assert(prefix.is_prefix_of(prefix + after)) by {
        assert((prefix + after).take(prefix.len() as int) =~= prefix);
    }
    if let Some(rest) = strip_prefix(other, prefix) {
        assert(other =~= prefix + rest);
    } else if other.len() >= prefix.len() {
        if forall|i: int| 0 <= i < prefix.len() ==> #[trigger] other[i] == prefix[i] {
            assert(other.take(prefix.len() as int) =~= prefix);
            assert(prefix.is_prefix_of(other));
        }
    }
}

/// A number that is written in decimal is read as itself, if it isn't more than is
/// allowed, with a plus sign or without; so is one below zero, where that may be.
pub proof fn law_decimal_is_read(n: nat, max: nat)
    ensures
        n <= max ==> unsigned(decimal(n), 10, max) == Some(n),
        n <= max ==> unsigned(seq!['+'] + decimal(n), 10, max) == Some(n),
        n > max ==> unsigned(decimal(n), 10, max) is None,
        n <= i64::MAX ==> signed(decimal(n)) == Some(n as int),
        n <= 0x8000_0000_0000_0000 ==> signed(seq!['-'] + decimal(n)) == Some(-(n as int)),
        n > i64::MAX ==> signed(decimal(n)) is None,
{
    lemma_decimal(n);
    let text = decimal(n);
    assert(0 <= digit_value(text[0]) < 10);
    assert((seq!['+'] + text).skip(1) =~= text);
    assert((seq!['-'] + text).skip(1) =~= text);
}

/// Nothing is read of a text that is empty or holds anything but digits.
pub proof fn law_only_digits_are_read(s: Seq<char>, radix: nat, max: nat, i: int)
    requires
        0 < radix <= 10,
    ensures
        s.len() == 0 ==> unsigned(s, radix, max) is None && signed(s) is None,
        0 < i < s.len() && !(('0' as int) <= (s[i] as int) < ('0' as int) + radix) ==> unsigned(s, radix, max) is None,
        0 < i < s.len() && !is_digit(s[i]) ==> signed(s) is None,
        s.len() > 0 && s[0] != '+' && !(('0' as int) <= (s[0] as int) < ('0' as int) + radix) ==> unsigned(s, radix, max) is None,
        s.len() > 0 && s[0] != '+' && s[0] != '-' && !is_digit(s[0]) ==> signed(s) is None,
        s.len() == 1 && !is_digit(s[0]) ==> unsigned(s, radix, max) is None && signed(s) is None,
{
    if 0 < i < s.len() {
        assert(s.skip(1)[i - 1] == s[i]);
    }
}

/// A digit more makes a number `radix` times what it was, and the digit more.
pub proof fn law_one_digit_more(s: Seq<char>, radix: nat, max: nat, d: nat)
    requires
        0 < radix <= 10,
        d < radix,
        s.len() > 0,
        s[0] != '+',
        unsigned(s, radix, max) is Some,
    ensures
        unsigned(s.push(digit_char(d)), radix, max) == (if unsigned(s, radix, max)->0 * radix + d <= max {
            Some(unsigned(s, radix, max)->0 * radix + d)
        } else {
            None
        }),
        digit_char(d) as int == 48 + d,
        unsigned(seq![digit_char(d)], radix, radix) == Some(d),
{
    let t = s.push(digit_char(d));
    assert(t.drop_last() =~= s);
    assert(t.last() == digit_char(d));
    assert(all_digits(t, radix)) by {
        assert forall|i: int| 0 <= i < t.len() implies 0 <= digit_value(#[trigger] t[i]) < radix by {
            if i < s.len() {
                assert(t[i] == s[i]);
            }
        }
    }
    let one = seq![digit_char(d)];
    assert(one.drop_last() =~= Seq::<char>::empty());
    assert(digits_value(Seq::<char>::empty(), radix) == 0);
    assert(digits_value(one, radix) == d) by (nonlinear_arith)
        requires
            digits_value(one, radix) == 0 * radix + d,
    ;
}

/// No number but zero is written with a zero before it.
pub proof fn law_no_zeros_before_a_number(n: nat)
    ensures
        n > 0 ==> decimal(n)[0] != '0',
        n == 0 ==> decimal(n) == seq!['0'],
    decreases n,
{
    if n >= 10 {
        law_no_zeros_before_a_number(n / 10);
        lemma_decimal(n / 10);
    }
}

/// Padding puts zeros before a text, or spaces after it, until it is wide enough,
/// and leaves a text that already is as it is.
pub proof fn law_padding(s: Seq<char>, width: nat, i: int)
    ensures
        s.len() >= width ==> space_padded(s, width) == s && zero_padded(s, width) == s,
        s.len() < width ==> space_padded(s, width).len() == width && zero_padded(s, width).len() == width,
        space_padded(s, width).take(s.len() as int) == s,
        s.len() <= i < width ==> space_padded(s, width)[i] == ' ',
        s.len() < width ==> zero_padded(s, width).skip(width - s.len()) == s,
        s.len() < width && 0 <= i < width - s.len() ==> zero_padded(s, width)[i] == '0',
{
    assert(space_padded(s, width).take(s.len() as int) =~= s);
    if s.len() < width {
        assert(zero_padded(s, width).skip(width - s.len()) =~= s);
    }
}

/// Joining puts the separator between each part and the next, and nowhere else.
pub proof fn law_join(parts: Seq<Seq<char>>, part: Seq<char>, sep: Seq<char>)
    ensures
        join(Seq::<Seq<char>>::empty(), sep).len() == 0,
        join(seq![part], sep) == part,
        parts.len() > 0 ==> join(parts.push(part), sep) == join(parts, sep) + sep + part,
{
    if parts.len() > 0 {
        assert(parts.push(part).drop_last() =~= parts);
    }
}

/// Whether `part` stands somewhere in `s`.
pub open spec fn mentions(s: Seq<char>, part: Seq<char>) -> bool {
    exists|i: int| 0 <= i && i + part.len() <= s.len() && part == #[trigger] s.subrange(i, i + part.len())
}

/// What is put between two texts stands in the whole.
pub proof fn lemma_mentions(before: Seq<char>, part: Seq<char>, after: Seq<char>)
    ensures
        mentions(before + part + after, part),
{
    let i = before.len() as int;
    assert((before + part + after).subrange(i, i + part.len()) =~= part);
}

}
