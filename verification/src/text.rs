//! Text helpers: character sequences, case folding, trimming, ordering and
//! decimal rendering.

use vstd::prelude::*;
use vstd::string::*;

verus! {

/// Appends one character to the end of a string, as `String::push` documents.
pub assume_specification[ String::push ](s: &mut String, ch: char)
    ensures
        final(s)@ == old(s)@.push(ch),
;

/// The characters with the Unicode property `White_Space`.
pub open spec fn is_space(c: char) -> bool {
    let u = c as u32;
    ||| 0x9 <= u <= 0xd
    ||| u == 0x20
    ||| u == 0x85
    ||| u == 0xa0
    ||| u == 0x1680
    ||| 0x2000 <= u <= 0x200a
    ||| u == 0x2028
    ||| u == 0x2029
    ||| u == 0x202f
    ||| u == 0x205f
    ||| u == 0x3000
}

/// What an optional text reads.
pub open spec fn text_of(s: Option<String>) -> Option<Seq<char>> {
    match s {
        Some(x) => Some(x@),
        None => None,
    }
}

/// ASCII lower case of one character; any other character stays as it is.
pub open spec fn lower_char(c: char) -> char {
    if 'A' <= c <= 'Z' {
        (c as u32 + 32) as char
    } else {
        c
    }
}

pub open spec fn trim_start(s: Seq<char>) -> Seq<char>
    decreases s.len(),
{
    if s.len() > 0 && is_space(s[0]) {
        trim_start(s.drop_first())
    } else {
        s
    }
}

pub open spec fn trim_end(s: Seq<char>) -> Seq<char>
    decreases s.len(),
{
    if s.len() > 0 && is_space(s.last()) {
        trim_end(s.drop_last())
    } else {
        s
    }
}

/// ASCII lower case of a whole text.
pub open spec fn lower(s: Seq<char>) -> Seq<char> {
    s.map_values(|c: char| lower_char(c))
}

/// A text without surrounding white space, in ASCII lower case.
pub open spec fn normal(s: Seq<char>) -> Seq<char> {
    lower(trim_end(trim_start(s)))
}

pub fn space(c: char) -> (r: bool)
    ensures
        r == is_space(c),
{
    let u: u32 = c as u32;
    (0x9 <= u && u <= 0xd) || u == 0x20 || u == 0x85 || u == 0xa0 || u == 0x1680 || (0x2000 <= u
        && u <= 0x200a) || u == 0x2028 || u == 0x2029 || u == 0x202f || u == 0x205f || u == 0x3000
}

pub fn to_lower(c: char) -> (r: char)
    ensures
        r == lower_char(c),
{
    match c {
        'A' => 'a',
        'B' => 'b',
        'C' => 'c',
        'D' => 'd',
        'E' => 'e',
        'F' => 'f',
        'G' => 'g',
        'H' => 'h',
        'I' => 'i',
        'J' => 'j',
        'K' => 'k',
        'L' => 'l',
        'M' => 'm',
        'N' => 'n',
        'O' => 'o',
        'P' => 'p',
        'Q' => 'q',
        'R' => 'r',
        'S' => 's',
        'T' => 't',
        'U' => 'u',
        'V' => 'v',
        'W' => 'w',
        'X' => 'x',
        'Y' => 'y',
        'Z' => 'z',
        _ => c,
    }
}

/// The characters of a text.
pub fn chars_of(s: &str) -> (r: Vec<char>)
    ensures
        r@ == s@,
{
    let mut out: Vec<char> = Vec::new();
    for c in it: s.chars()
        invariant
            it.seq() == s@,
            out@ == s@.take(it.index()),
    {
        out.push(c);
        assert(s@.take(it.index() + 1) == s@.take(it.index()).push(s@[it.index()]));
    }
    assert(s@.take(s@.len() as int) == s@);
    out
}

/// Whether two texts hold the same characters.
pub fn same(a: &str, b: &str) -> (r: bool)
    ensures
        r == (a@ == b@),
{
    let x = chars_of(a);
    holds(&x, b)
}

/// Whether a character vector spells the given text.
pub fn holds(v: &Vec<char>, text: &str) -> (r: bool)
    ensures
        r == (v@ == text@),
{
    let w = chars_of(text);
    if v.len() != w.len() {
        return false;
    }
    let mut i: usize = 0;
    while i < v.len()
        invariant
            i <= v.len(),
            v.len() == w.len(),
            w@ == text@,
            forall|k: int| 0 <= k < i ==> v@[k] == w@[k],
        decreases v.len() - i,
    {
        if v[i] != w[i] {
            return false;
        }
        i += 1;
    }
    assert(v@ =~= w@);
    true
}

proof fn lemma_trim_start(s: Seq<char>, k: int)
    requires
        0 <= k <= s.len(),
        forall|i: int| 0 <= i < k ==> is_space(#[trigger] s[i]),
        k == s.len() || !is_space(s[k]),
    ensures
        trim_start(s) == s.skip(k),
    decreases s.len(),
{
    if k > 0 {
        let r = s.drop_first();
        assert forall|i: int| 0 <= i < k - 1 implies is_space(#[trigger] r[i]) by {
            assert(r[i] == s[i + 1]);
        }
        if k < s.len() {
            assert(r[k - 1] == s[k]);
        }
        lemma_trim_start(r, k - 1);
        assert(is_space(s[0]));
        assert(r.skip(k - 1) =~= s.skip(k));
    } else {
        assert(s.skip(0) =~= s);
    }
}

proof fn lemma_trim_end(s: Seq<char>, k: int)
    requires
        0 <= k <= s.len(),
        forall|i: int| k <= i < s.len() ==> is_space(#[trigger] s[i]),
        k == 0 || !is_space(s[k - 1]),
    ensures
        trim_end(s) == s.take(k),
    decreases s.len(),
{
    if k < s.len() {
        let r = s.drop_last();
        assert forall|i: int| k <= i < r.len() implies is_space(#[trigger] r[i]) by {
            assert(r[i] == s[i]);
        }
        lemma_trim_end(r, k);
        assert(is_space(s.last()));
        assert(r.take(k) =~= s.take(k));
    } else {
        assert(s.take(k) =~= s);
    }
}

/// The text without surrounding white space, in ASCII lower case.
pub fn normal_chars(s: &str) -> (r: Vec<char>)
    ensures
        r@ == normal(s@),
{
    let v = chars_of(s);
    let n: usize = v.len();
    let mut a: usize = 0;
    while a < n && space(v[a])
        invariant
            a <= n,
            n == v.len(),
            forall|i: int| 0 <= i < a ==> is_space(#[trigger] v@[i]),
        decreases n - a,
    {
        a += 1;
    }
    let mut b: usize = n;
    while b > a && space(v[b - 1])
        invariant
            a <= b <= n,
            n == v.len(),
            forall|i: int| b <= i < n ==> is_space(#[trigger] v@[i]),
        decreases b,
    {
        b -= 1;
    }
    let ghost head = v@.skip(a as int);
    proof {
        lemma_trim_start(v@, a as int);
        assert forall|i: int| b - a <= i < head.len() implies is_space(#[trigger] head[i]) by {
            assert(head[i] == v@[i + a]);
        }
        lemma_trim_end(head, b - a);
    }
    let ghost body = head.take(b - a);
    let mut out: Vec<char> = Vec::new();
    let mut i: usize = a;
    while i < b
        invariant
            a <= i <= b <= n,
            n == v.len(),
            body.len() == b - a,
            forall|k: int| 0 <= k < b - a ==> body[k] == v@[k + a],
            out@.len() == i - a,
            forall|k: int| 0 <= k < i - a ==> out@[k] == lower_char(body[k]),
        decreases b - i,
    {
        out.push(to_lower(v[i]));
        i += 1;
    }
    assert(out@ =~= lower(body));
    out
}

/// The text in ASCII lower case.
pub fn lower_chars(s: &str) -> (r: Vec<char>)
    ensures
        r@ == lower(s@),
{
    let v = chars_of(s);
    let mut out: Vec<char> = Vec::new();
    let mut i: usize = 0;
    while i < v.len()
        invariant
            i <= v.len(),
            out@.len() == i,
            forall|k: int| 0 <= k < i ==> out@[k] == lower_char(v@[k]),
        decreases v.len() - i,
    {
        out.push(to_lower(v[i]));
        i += 1;
    }
    assert(out@ =~= lower(s@));
    out
}

/// Appends characters to a string.
pub fn push_all(s: &mut String, v: &Vec<char>)
    ensures
        final(s)@ == old(s)@ + v@,
{
    let ghost start = s@;
    let mut i: usize = 0;
    while i < v.len()
        invariant
            i <= v.len(),
            s@ == start + v@.take(i as int),
        decreases v.len() - i,
    {
        s.push(v[i]);
        i += 1;
        assert(v@.take(i as int) =~= v@.take(i - 1).push(v@[i - 1]));
    }
    assert(v@.take(v.len() as int) =~= v@);
}

/// Two texts, one after the other.
pub fn join2(a: &str, b: &str) -> (r: String)
    ensures
        r@ == a@ + b@,
{
    let mut s = a.to_owned();
    s.append(b);
    s
}

/// Three texts, one after the other.
pub fn join3(a: &str, b: &str, c: &str) -> (r: String)
    ensures
        r@ == a@ + b@ + c@,
{
    let mut s = join2(a, b);
    s.append(c);
    s
}

/// Whether one text comes strictly before another in code point order, which is
/// also the order of their UTF-8 bytes.
pub open spec fn before(a: Seq<char>, b: Seq<char>) -> bool
    decreases a.len(),
{
    if b.len() == 0 {
        false
    } else if a.len() == 0 {
        true
    } else if a[0] != b[0] {
        a[0] < b[0]
    } else {
        before(a.drop_first(), b.drop_first())
    }
}

proof fn lemma_before_common(a: Seq<char>, b: Seq<char>, k: int)
    requires
        0 <= k <= a.len(),
        k <= b.len(),
        forall|i: int| 0 <= i < k ==> a[i] == b[i],
    ensures
        before(a, b) == before(a.skip(k), b.skip(k)),
    decreases k,
{
    if k == 0 {
        assert(a.skip(0) =~= a);
        assert(b.skip(0) =~= b);
    } else {
        lemma_before_common(a.drop_first(), b.drop_first(), k - 1);
        assert(a.drop_first().skip(k - 1) =~= a.skip(k));
        assert(b.drop_first().skip(k - 1) =~= b.skip(k));
    }
}

/// Code point order is irreflexive, transitive and total.
pub proof fn law_before_is_a_strict_total_order(a: Seq<char>, b: Seq<char>, c: Seq<char>)
    ensures
        !before(a, a),
        before(a, b) && before(b, c) ==> before(a, c),
        a == b || before(a, b) || before(b, a),
        !(before(a, b) && before(b, a)),
    decreases a.len(),
{
    if a.len() > 0 {
        law_before_is_a_strict_total_order(a.drop_first(), b.drop_first(), c.drop_first());
        if b.len() > 0 && a[0] == b[0] && a.drop_first() == b.drop_first() {
            assert(a =~= seq![a[0]] + a.drop_first());
            assert(b =~= seq![b[0]] + b.drop_first());
        }
    } else if b.len() == 0 {
        assert(a =~= b);
    }
}

/// Whether one text comes strictly before another in code point order.
pub fn comes_before(a: &str, b: &str) -> (r: bool)
    ensures
        r == before(a@, b@),
{
    let x = chars_of(a);
    let y = chars_of(b);
    let mut i: usize = 0;
    while i < x.len() && i < y.len() && x[i] == y[i]
        invariant
            i <= x.len(),
            i <= y.len(),
            x@ == a@,
            y@ == b@,
            forall|k: int| 0 <= k < i ==> x@[k] == y@[k],
        decreases x.len() - i,
    {
        i += 1;
    }
    proof {
        lemma_before_common(a@, b@, i as int);
        if i < x.len() {
            assert(a@.skip(i as int)[0] == a@[i as int]);
        }
        if i < y.len() {
            assert(b@.skip(i as int)[0] == b@[i as int]);
        }
    }
    if i == y.len() {
        false
    } else if i == x.len() {
        true
    } else {
        x[i] < y[i]
    }
}

/// The decimal digit of a number below ten.
pub open spec fn digit(d: int) -> char {
    (48 + d) as char
}

/// Decimal digits of a natural number, most significant first.
pub open spec fn digits(n: nat) -> Seq<char>
    decreases n,
{
    if n < 10 {
        seq![digit(n as int)]
    } else {
        digits(n / 10).push(digit((n % 10) as int))
    }
}

/// Decimal rendering of an integer, with a leading minus sign below zero.
pub open spec fn decimal(i: int) -> Seq<char> {
    if i < 0 {
        seq!['-'] + digits((-i) as nat)
    } else {
        digits(i as nat)
    }
}

fn digit_char(d: u8) -> (r: char)
    requires
        d < 10,
    ensures
        r == digit(d as int),
{
    match d {
        0 => '0',
        1 => '1',
        2 => '2',
        3 => '3',
        4 => '4',
        5 => '5',
        6 => '6',
        7 => '7',
        8 => '8',
        _ => '9',
    }
}

/// Decimal digits of an unsigned number.
pub fn digits_text(n: u128) -> (r: String)
    ensures
        r@ == digits(n as nat),
    decreases n,
{
    if n < 10 {
        let mut s = String::new();
        s.push(digit_char(n as u8));
        assert(s@ =~= digits(n as nat));
        s
    } else {
        let mut s = digits_text(n / 10);
        s.push(digit_char((n % 10) as u8));
        s
    }
}

/// Decimal rendering of a signed number.
pub fn decimal_text(i: i128) -> (r: String)
    ensures
        r@ == decimal(i as int),
{
    if i < 0 {
        let m: u128 = if i == i128::MIN {
            170141183460469231731687303715884105728
        } else {
            (-i) as u128
        };
        let mut s = String::new();
        s.push('-');
        let d = digits_text(m);
        s.append(d.as_str());
        assert(s@ =~= decimal(i as int));
        s
    } else {
        digits_text(i as u128)
    }
}

/// The last `width` decimal digits of a number, with leading zeros.
pub open spec fn padded(n: nat, width: nat) -> Seq<char>
    decreases width,
{
    if width == 0 {
        Seq::empty()
    } else {
        padded(n / 10, (width - 1) as nat).push(digit((n % 10) as int))
    }
}

/// Ten to a power.
pub open spec fn ten_to(places: nat) -> nat
    decreases places,
{
    if places == 0 {
        1
    } else {
        10 * ten_to((places - 1) as nat)
    }
}

/// Rendering of a number by its sign and how many units of the last decimal place it has.
/// The sign stays where there are none.
pub open spec fn fixed(negative: bool, size: nat, places: nat) -> Seq<char> {
    let sign = if negative { seq!['-'] } else { Seq::<char>::empty() };
    sign + digits(size / ten_to(places)) + seq!['.'] + padded(size % ten_to(places), places)
}

/// The hexadecimal digit of a number below sixteen.
pub open spec fn hex_digit(d: int) -> char {
    if d < 10 {
        (48 + d) as char
    } else {
        (87 + d) as char
    }
}

/// The last `width` hexadecimal digits of a number, with leading zeros.
pub open spec fn hex_padded(n: nat, width: nat) -> Seq<char>
    decreases width,
{
    if width == 0 {
        Seq::empty()
    } else {
        hex_padded(n / 16, (width - 1) as nat).push(hex_digit((n % 16) as int))
    }
}

fn padded_text(n: u128, width: u32) -> (r: String)
    ensures
        r@ == padded(n as nat, width as nat),
    decreases width,
{
    if width == 0 {
        let s = String::new();
        assert(s@ =~= padded(n as nat, 0));
        s
    } else {
        let mut s = padded_text(n / 10, width - 1);
        s.push(digit_char((n % 10) as u8));
        s
    }
}

fn power_of_ten(places: u32) -> (r: u128)
    requires
        places <= 9,
    ensures
        r == ten_to(places as nat),
        1 <= r <= 1_000_000_000,
    decreases places,
{
    proof {
        reveal_with_fuel(ten_to, 11);
    }
    match places {
        0 => 1,
        1 => 10,
        2 => 100,
        3 => 1_000,
        4 => 10_000,
        5 => 100_000,
        6 => 1_000_000,
        7 => 10_000_000,
        8 => 100_000_000,
        _ => 1_000_000_000,
    }
}

/// Renders a number by its sign and how many units of the last decimal place it has.
pub fn fixed_text(negative: bool, size: u128, places: u32) -> (r: String)
    requires
        places <= 9,
    ensures
        r@ == fixed(negative, size as nat, places as nat),
{
    let unit: u128 = power_of_ten(places);
    let mut s = String::new();
    if negative {
        s.push('-');
    }
    let whole = digits_text(size / unit);
    s.append(whole.as_str());
    s.push('.');
    let part = padded_text(size % unit, places);
    s.append(part.as_str());
    assert(s@ =~= fixed(negative, size as nat, places as nat));
    s
}

fn hex_char(d: u8) -> (r: char)
    requires
        d < 16,
    ensures
        r == hex_digit(d as int),
{
    match d {
        0 => '0',
        1 => '1',
        2 => '2',
        3 => '3',
        4 => '4',
        5 => '5',
        6 => '6',
        7 => '7',
        8 => '8',
        9 => '9',
        10 => 'a',
        11 => 'b',
        12 => 'c',
        13 => 'd',
        14 => 'e',
        _ => 'f',
    }
}

/// The last `width` hexadecimal digits of a number, with leading zeros.
pub fn hex_text(n: u64, width: u32) -> (r: String)
    ensures
        r@ == hex_padded(n as nat, width as nat),
    decreases width,
{
    if width == 0 {
        let s = String::new();
        assert(s@ =~= hex_padded(n as nat, 0));
        s
    } else {
        let mut s = hex_text(n / 16, width - 1);
        s.push(hex_char((n % 16) as u8));
        s
    }
}

/// Of two texts, the first character in which they differ decides which comes first; a
/// text comes before any longer one that starts with it.
pub proof fn law_first_difference_decides(a: Seq<char>, b: Seq<char>, k: int)
    requires
        0 <= k <= a.len(),
        k <= b.len(),
        forall|i: int| 0 <= i < k ==> a[i] == b[i],
        k < a.len() && k < b.len() ==> a[k] != b[k],
    ensures
        k < a.len() && k < b.len() ==> (before(a, b) <==> (a[k] as int) < (b[k] as int)),
        k == a.len() ==> (before(a, b) <==> k < b.len()),
        k == b.len() ==> !before(a, b),
{
    lemma_before_common(a, b, k);
    if k < a.len() {
        assert(a.skip(k)[0] == a[k]);
    }
    if k < b.len() {
        assert(b.skip(k)[0] == b[k]);
    }
}

// ---- renderings read back -------------------------------------------------------------------------

/// The number that digits stand for, in a base.
pub open spec fn read(s: Seq<char>, base: int) -> int
    decreases s.len(),
{
    if s.len() == 0 {
        0
    } else {
        read(s.drop_last(), base) * base + digit_value(s.last())
    }
}

/// What a digit is worth.
pub open spec fn digit_value(c: char) -> int {
    if '0' <= c <= '9' {
        c as int - '0' as int
    } else {
        c as int - 'a' as int + 10
    }
}

/// Whether a text is made of decimal digits.
pub open spec fn is_digits(s: Seq<char>) -> bool {
    forall|i: int| 0 <= i < s.len() ==> '0' <= (#[trigger] s[i]) <= '9'
}

/// The digits of a number read as that number, and start with a zero only where it is zero.
pub proof fn law_digits_read_back(n: nat)
    ensures
        is_digits(digits(n)),
        digits(n).len() > 0,
        read(digits(n), 10) == n,
        n > 0 ==> digits(n)[0] != '0',
    decreases n,
{
    let d = digits(n);
    if n < 10 {
        assert(d.drop_last() =~= Seq::<char>::empty());
        assert(read(d.drop_last(), 10) == 0);
    } else {
        law_digits_read_back(n / 10);
        assert(d.drop_last() =~= digits(n / 10));
        assert forall|i: int| 0 <= i < d.len() implies '0' <= (#[trigger] d[i]) <= '9' by {
            if i < d.len() - 1 {
                assert(digits(n / 10)[i] == d[i]);
            }
        }
    }
}

/// A rendered integer reads as that integer: a minus sign where it is below zero, and the
/// digits of its size.
pub proof fn law_decimal_reads_back(i: int)
    ensures
        i < 0 ==> decimal(i)[0] == '-' && read(decimal(i).skip(1), 10) == -i && is_digits(
            decimal(i).skip(1),
        ),
        i >= 0 ==> is_digits(decimal(i)) && read(decimal(i), 10) == i,
        decimal(i).len() > 0,
{
    law_digits_read_back((if i < 0 { -i } else { i }) as nat);
    if i < 0 {
        assert(decimal(i).skip(1) =~= digits((-i) as nat));
    }
}

/// Two integers are rendered alike only where they are the same.
pub proof fn law_decimals_tell_integers_apart(i: int, j: int)
    requires
        decimal(i) == decimal(j),
    ensures
        i == j,
{
    law_decimal_reads_back(i);
    law_decimal_reads_back(j);
    if i >= 0 && j < 0 {
        assert(decimal(i)[0] == '-');
    }
    if j >= 0 && i < 0 {
        assert(decimal(j)[0] == '-');
    }
}

/// Padded digits are as many as asked for, and read as the number, less what they leave out.
pub proof fn law_padded_digits_read_back(n: nat, width: nat)
    ensures
        padded(n, width).len() == width,
        is_digits(padded(n, width)),
        n < ten_to(width) ==> read(padded(n, width), 10) == n,
    decreases width,
{
    if width > 0 {
        law_padded_digits_read_back(n / 10, (width - 1) as nat);
        let d = padded(n, width);
        assert(d.drop_last() =~= padded(n / 10, (width - 1) as nat));
        assert forall|i: int| 0 <= i < d.len() implies '0' <= (#[trigger] d[i]) <= '9' by {
            if i < d.len() - 1 {
                assert(padded(n / 10, (width - 1) as nat)[i] == d[i]);
            }
        }
    }
}

/// A power of ten has one zero more than the one before it.
pub proof fn law_powers_of_ten(places: nat)
    ensures
        ten_to(0) == 1,
        ten_to(places + 1) == 10 * ten_to(places),
        ten_to(places) > 0,
    decreases places,
{
    if places > 0 {
        law_powers_of_ten((places - 1) as nat);
    }
}

/// A number with decimal places reads as it is: the sign, whole units before the point, and
/// as many places behind it as asked for.
pub proof fn law_fixed_reads_back(negative: bool, size: nat, places: nat)
    ensures
        ({
            let s = fixed(negative, size, places);
            let start: int = if negative { 1 } else { 0 };
            let point = s.len() - places - 1;
            &&& start < point < s.len()
            &&& negative <==> s[0] == '-'
            &&& s[point] == '.'
            &&& is_digits(s.subrange(start, point))
            &&& is_digits(s.skip(point + 1))
            &&& read(s.subrange(start, point), 10) * ten_to(places) + read(s.skip(point + 1), 10)
                == size
        }),
{
    let t = ten_to(places);
    law_powers_of_ten(places);
    let whole = digits(size / t);
    let part = padded(size % t, places);
    law_digits_read_back(size / t);
    law_padded_digits_read_back(size % t, places);
    let s = fixed(negative, size, places);
    let start: int = if negative { 1 } else { 0 };
    let point = s.len() - places - 1;
    assert(point == start + whole.len());
    assert(s.subrange(start, point) =~= whole);
    assert(s.skip(point + 1) =~= part);
    if !negative {
        assert(s[0] == whole[0]);
    }
    vstd::arithmetic::div_mod::lemma_mod_bound(size as int, t as int);
    vstd::arithmetic::div_mod::lemma_fundamental_div_mod(size as int, t as int);
    assert(t * (size / t) == (size / t) * t) by (nonlinear_arith);
}

/// Hexadecimal digits are as many as asked for, and read as the number, less what they
/// leave out.
pub proof fn law_hex_digits_read_back(n: nat, width: nat)
    ensures
        hex_padded(n, width).len() == width,
        forall|i: int|
            0 <= i < width ==> ('0' <= #[trigger] hex_padded(n, width)[i] <= '9') || 'a'
                <= hex_padded(n, width)[i] <= 'f',
        n < sixteen_to(width) ==> read(hex_padded(n, width), 16) == n,
    decreases width,
{
    if width > 0 {
        law_hex_digits_read_back(n / 16, (width - 1) as nat);
        let d = hex_padded(n, width);
        assert(d.drop_last() =~= hex_padded(n / 16, (width - 1) as nat));
        assert forall|i: int| 0 <= i < width implies ('0' <= #[trigger] d[i] <= '9') || 'a'
            <= d[i] <= 'f' by {
            if i < d.len() - 1 {
                assert(hex_padded(n / 16, (width - 1) as nat)[i] == d[i]);
            }
        }
    }
}

/// Sixteen to a power.
pub open spec fn sixteen_to(width: nat) -> nat
    decreases width,
{
    if width == 0 {
        1
    } else {
        16 * sixteen_to((width - 1) as nat)
    }
}

// ---- trimming and case, in plain terms ----------------------------------------------------------

/// A normalised text is a part of the text, between white space alone, with its capital
/// letters made small; it neither starts nor ends with white space.
pub proof fn law_normal_text_is_what_stands_between_spaces(s: Seq<char>, a: int, b: int)
    requires
        0 <= a <= b <= s.len(),
        forall|i: int| 0 <= i < a ==> is_space(#[trigger] s[i]),
        forall|i: int| b <= i < s.len() ==> is_space(#[trigger] s[i]),
        a < b ==> !is_space(s[a]) && !is_space(s[b - 1]),
        a == b ==> a == s.len(),
    ensures
        normal(s).len() == b - a,
        forall|i: int|
            0 <= i < b - a ==> #[trigger] normal(s)[i] == if 65 <= s[a + i] as int && s[a + i] as int
                <= 90 {
                (s[a + i] as int + 32) as char
            } else {
                s[a + i]
            },
{
    lemma_trim_start(s, a);
    let head = s.skip(a);
    assert forall|i: int| b - a <= i < head.len() implies is_space(#[trigger] head[i]) by {
        assert(head[i] == s[i + a]);
    }
    lemma_trim_end(head, b - a);
}

/// White space is what Unicode counts as such.
pub proof fn law_white_space(c: char)
    ensures
        is_space(c) <==> {
            let u = c as int;
            ||| 9 <= u <= 13
            ||| u == 32
            ||| u == 133
            ||| u == 160
            ||| u == 5760
            ||| 8192 <= u <= 8202
            ||| u == 8232
            ||| u == 8233
            ||| u == 8239
            ||| u == 8287
            ||| u == 12288
        },
{
}

/// Making letters small twice does no more than doing so once, and keeps the length.
pub proof fn law_small_letters_stay(s: Seq<char>)
    ensures
        lower(lower(s)) == lower(s),
        lower(s).len() == s.len(),
        forall|i: int| 0 <= i < s.len() ==> !(65 <= (#[trigger] lower(s)[i]) as int && lower(
            s,
        )[i] as int <= 90),
{
    assert(lower(lower(s)) =~= lower(s));
}

/// Whether a text reads as an integer: decimal digits, behind a minus sign below zero.
pub open spec fn reads_as(s: Seq<char>, n: int) -> bool {
    if n < 0 {
        s.len() > 1 && s[0] == '-' && is_digits(s.skip(1)) && read(s.skip(1), 10) == -n
    } else {
        s.len() > 0 && is_digits(s) && read(s, 10) == n
    }
}

/// A rendered integer reads as it, and as no other.
pub proof fn law_decimal_reads_as_its_integer(i: int, j: int)
    ensures
        reads_as(decimal(i), i),
        reads_as(decimal(i), j) ==> i == j,
{
    law_decimal_reads_back(i);
    law_digits_read_back((if i < 0 { -i } else { i }) as nat);
    if reads_as(decimal(i), j) {
        if i >= 0 && j < 0 {
            assert(decimal(i)[0] == '-');
        }
        if i < 0 && j >= 0 {
            assert(decimal(i)[0] == '-');
        }
    }
}

} // verus!
