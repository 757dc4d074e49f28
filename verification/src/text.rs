//! Decimal numerals.

use vstd::prelude::*;

verus! {

/// The character of the digit `d`.
pub open spec fn digit_char(d: nat) -> char {
    if d == 0 {
        '0'
    } else if d == 1 {
        '1'
    } else if d == 2 {
        '2'
    } else if d == 3 {
        '3'
    } else if d == 4 {
        '4'
    } else if d == 5 {
        '5'
    } else if d == 6 {
        '6'
    } else if d == 7 {
        '7'
    } else if d == 8 {
        '8'
    } else {
        '9'
    }
}

/// The decimal numeral of `n`, without leading zeros.
pub open spec fn decimal(n: nat) -> Seq<char>
    decreases n,
{
    if n < 10 {
        seq![digit_char(n)]
    } else {
        decimal(n / 10).push(digit_char(n % 10))
    }
}

/// The decimal numeral of `n`, with a minus sign when `n` is negative.
pub open spec fn signed_decimal(n: int) -> Seq<char> {
    if n < 0 {
        seq!['-'] + decimal((-n) as nat)
    } else {
        decimal(n as nat)
    }
}

/// The numeral of one digit.
pub fn digit_str(d: u64) -> (r: &'static str)
    requires
        d < 10,
    ensures
        r@ == seq![digit_char(d as nat)],
{
    proof {
        reveal_strlit("0");
        reveal_strlit("1");
        reveal_strlit("2");
        reveal_strlit("3");
        reveal_strlit("4");
        reveal_strlit("5");
        reveal_strlit("6");
        reveal_strlit("7");
        reveal_strlit("8");
        reveal_strlit("9");
    }
    let r = if d == 0 {
        "0"
    } else if d == 1 {
        "1"
    } else if d == 2 {
        "2"
    } else if d == 3 {
        "3"
    } else if d == 4 {
        "4"
    } else if d == 5 {
        "5"
    } else if d == 6 {
        "6"
    } else if d == 7 {
        "7"
    } else if d == 8 {
        "8"
    } else {
        "9"
    };
    assert(r@ =~= seq![digit_char(d as nat)]);
    r
}

/// The decimal numeral of `n`.
pub fn u64_to_string(n: u64) -> (r: String)
    ensures
        r@ == decimal(n as nat),
    decreases n,
{
    if n < 10 {
        digit_str(n).to_string()
    } else {
        let mut text = u64_to_string(n / 10);
        text.append(digit_str(n % 10));
        proof {
            assert(text@ =~= decimal((n / 10) as nat).push(digit_char((n % 10) as nat)));
        }
        text
    }
}

/// The decimal numeral of `n`, with a minus sign when `n` is negative.
pub fn i64_to_string(n: i64) -> (r: String)
    ensures
        r@ == signed_decimal(n as int),
{
    if n < 0 {
        let magnitude: u64 = if n == i64::MIN {
            0x8000_0000_0000_0000u64
        } else {
            (-n) as u64
        };
        let mut text = "-".to_string();
        proof {
            reveal_strlit("-");
        }
        let digits = u64_to_string(magnitude);
        text.append(digits.as_str());
        proof {
            assert(text@ =~= seq!['-'] + decimal((-n) as nat));
        }
        text
    } else {
        u64_to_string(n as u64)
    }
}

/// The text `x,y,z` of a point.
pub open spec fn coordinate_text(x: int, y: int, z: int) -> Seq<char> {
    signed_decimal(x) + seq![','] + signed_decimal(y) + seq![','] + signed_decimal(z)
}

/// The text `x,y,z` of a point.
pub fn coordinate_key(x: i32, y: i32, z: i32) -> (r: String)
    ensures
        r@ == coordinate_text(x as int, y as int, z as int),
{
    let mut text = i64_to_string(x as i64);
    proof {
        reveal_strlit(",");
    }
    text.append(",");
    text.append(i64_to_string(y as i64).as_str());
    text.append(",");
    text.append(i64_to_string(z as i64).as_str());
    proof {
        assert(text@ =~= coordinate_text(x as int, y as int, z as int));
    }
    text
}

/// The digit that the character `c` stands for, if it is a digit.
pub open spec fn digit_of(c: char) -> Option<nat> {
    if c == '0' {
        Some(0)
    } else if c == '1' {
        Some(1)
    } else if c == '2' {
        Some(2)
    } else if c == '3' {
        Some(3)
    } else if c == '4' {
        Some(4)
    } else if c == '5' {
        Some(5)
    } else if c == '6' {
        Some(6)
    } else if c == '7' {
        Some(7)
    } else if c == '8' {
        Some(8)
    } else if c == '9' {
        Some(9)
    } else {
        None
    }
}

/// The number that a sequence of digits stands for; nothing for the empty
/// sequence and for one that holds another character.
pub open spec fn digits_value(s: Seq<char>) -> Option<nat>
    decreases s.len(),
{
    if s.len() == 0 {
        None
    } else if digit_of(s.last()).is_none() {
        None
    } else if s.len() == 1 {
        digit_of(s.last())
    } else if digits_value(s.drop_last()).is_none() {
        None
    } else {
        Some(10 * digits_value(s.drop_last()).unwrap() + digit_of(s.last()).unwrap())
    }
}

/// The number that a numeral with an optional minus sign stands for.
pub open spec fn signed_value(s: Seq<char>) -> Option<int> {
    if s.len() > 0 && s[0] == '-' {
        match digits_value(s.skip(1)) {
            Some(v) => Some(-(v as int)),
            None => None,
        }
    } else {
        match digits_value(s) {
            Some(v) => Some(v as int),
            None => None,
        }
    }
}

/// A decimal numeral is made of digits and stands for its number.
pub proof fn lemma_decimal(n: nat)
    ensures
        decimal(n).len() >= 1,
        forall|i: int| 0 <= i < decimal(n).len() ==> digit_of(#[trigger] decimal(n)[i]).is_some(),
        digits_value(decimal(n)) == Some(n),
    decreases n,
{
    if n >= 10 {
        lemma_decimal(n / 10);
        let s = decimal(n);
        assert(s.drop_last() =~= decimal(n / 10));
        assert(s.last() == digit_char(n % 10));
        assert forall|i: int| 0 <= i < s.len() implies digit_of(#[trigger] s[i]).is_some() by {
            if i < s.len() - 1 {
                assert(s[i] == decimal(n / 10)[i]);
            }
        }
    }
}

/// A signed numeral holds no comma and stands for its number.
pub proof fn lemma_signed_decimal(n: int)
    ensures
        signed_decimal(n).len() >= 1,
        forall|i: int| 0 <= i < signed_decimal(n).len() ==> #[trigger] signed_decimal(n)[i] != ',',
        signed_value(signed_decimal(n)) == Some(n),
{
    if n < 0 {
        lemma_decimal((-n) as nat);
        let s = signed_decimal(n);
        assert(s.skip(1) =~= decimal((-n) as nat));
        assert forall|i: int| 0 <= i < s.len() implies #[trigger] s[i] != ',' by {
            if i > 0 {
                assert(s[i] == decimal((-n) as nat)[i - 1]);
            }
        }
    } else {
        lemma_decimal(n as nat);
        assert(digit_of(decimal(n as nat)[0]).is_some());
    }
}

/// The digit that `c` stands for, if it is a digit.
pub fn digit_value(c: char) -> (r: Option<u64>)
    ensures
        match r {
            Some(d) => digit_of(c) == Some(d as nat) && d < 10,
            None => digit_of(c).is_none(),
        },
{
    if c == '0' {
        Some(0)
    } else if c == '1' {
        Some(1)
    } else if c == '2' {
        Some(2)
    } else if c == '3' {
        Some(3)
    } else if c == '4' {
        Some(4)
    } else if c == '5' {
        Some(5)
    } else if c == '6' {
        Some(6)
    } else if c == '7' {
        Some(7)
    } else if c == '8' {
        Some(8)
    } else if c == '9' {
        Some(9)
    } else {
        None
    }
}

/// The characters of `text`.
pub fn to_chars(text: &str) -> (r: Vec<char>)
    ensures
        r@ == text@,
{
    let n = text.unicode_len();
    let mut chars: Vec<char> = Vec::new();
    let mut i: usize = 0;
    while i < n
        invariant
            i <= n,
            n == text@.len(),
            chars@ == text@.take(i as int),
        decreases n - i,
    {
        chars.push(text.get_char(i));
        proof {
            assert(chars@ =~= text@.take(i as int + 1));
        }
        i += 1;
    }
    proof {
        assert(text@.take(n as int) =~= text@);
    }
    chars
}

/// The first index from `from` on at which `c` stands in `s` before `to`,
/// or `to` when it does not stand there.
pub open spec fn next_index(s: Seq<char>, from: int, to: int, c: char) -> int
    decreases to - from,
{
    if from < to && s[from] != c {
        next_index(s, from + 1, to, c)
    } else {
        from
    }
}

/// The first index from `from` on at which `c` stands in `chars` before
/// `to`, or `to` when it does not stand there.
pub fn find_char(chars: &Vec<char>, from: usize, to: usize, c: char) -> (r: usize)
    requires
        from <= to <= chars.len(),
    ensures
        from <= r <= to,
        r < to ==> chars[r as int] == c,
        forall|j: int| from <= j < r ==> chars[j] != c,
        r == next_index(chars@, from as int, to as int, c),
{
    let mut i: usize = from;
    while i < to
        invariant
            from <= i <= to,
            to <= chars.len(),
            forall|j: int| from <= j < i ==> chars[j] != c,
            next_index(chars@, from as int, to as int, c) == next_index(
                chars@,
                i as int,
                to as int,
                c,
            ),
        decreases to - i,
    {
        if chars[i] == c {
            return i;
        }
        i += 1;
    }
    to
}

/// A numeral that goes on stands for a number that is not smaller.
pub proof fn lemma_digits_grow(s: Seq<char>, k: int)
    requires
        1 <= k <= s.len(),
        digits_value(s).is_some(),
    ensures
        digits_value(s.take(k)).is_some(),
        digits_value(s.take(k)).unwrap() <= digits_value(s).unwrap(),
    decreases s.len(),
{
    if k == s.len() {
        assert(s.take(k) =~= s);
    } else {
        assert(s.drop_last().take(k) =~= s.take(k));
        lemma_digits_grow(s.drop_last(), k);
    }
}

/// The number that the digits `chars[from..to]` stand for, when they are
/// digits, at least one, and the number is at most `limit`.
pub fn parse_digits(chars: &Vec<char>, from: usize, to: usize, limit: u64) -> (r: Option<u64>)
    requires
        from <= to <= chars.len(),
        limit <= 0x1_0000_0000,
    ensures
        r == match digits_value(chars@.subrange(from as int, to as int)) {
            Some(v) => if v <= limit {
                Some(v as u64)
            } else {
                None
            },
            None => None,
        },
{
    if from == to {
        return None;
    }
    let ghost s = chars@.subrange(from as int, to as int);
    let mut value: u64 = 0;
    let mut i: usize = from;
    while i < to
        invariant
            from <= i <= to,
            to <= chars.len(),
            limit <= 0x1_0000_0000,
            s == chars@.subrange(from as int, to as int),
            value <= limit,
            i == from ==> value == 0,
            i > from ==> digits_value(s.take(i - from)) == Some(value as nat),
        decreases to - i,
    {
        let ghost k = i - from + 1;
        proof {
            assert(s.take(k).drop_last() =~= s.take(k - 1));
            assert(s.take(k).last() == chars[i as int]);
        }
        match digit_value(chars[i]) {
            None => {
                proof {
                    if digits_value(s).is_some() {
                        lemma_digits_grow(s, k);
                    }
                }
                return None;
            },
            Some(d) => {
                let next: u64 = value * 10 + d;
                proof {
                    assert(s.take(k).len() == k);
                    if k > 1 {
                        assert(s.take(k).drop_last().len() == k - 1);
                        assert(digits_value(s.take(k - 1)) == Some(value as nat));
                    }
                    assert(digits_value(s.take(k)) == Some(next as nat));
                }
                if next > limit {
                    proof {
                        if digits_value(s).is_some() {
                            lemma_digits_grow(s, k);
                        }
                    }
                    return None;
                }
                value = next;
            },
        }
        i += 1;
    }
    proof {
        assert(s.take(to - from) =~= s);
    }
    Some(value)
}

/// The number that the numeral `chars[from..to]` stands for, when it is a
/// numeral, with or without a minus sign, of a number that fits 32 bits.
pub fn parse_signed(chars: &Vec<char>, from: usize, to: usize) -> (r: Option<i32>)
    requires
        from <= to <= chars.len(),
    ensures
        r == match signed_value(chars@.subrange(from as int, to as int)) {
            Some(v) => if i32::MIN <= v <= i32::MAX {
                Some(v as i32)
            } else {
                None
            },
            None => None,
        },
{
    let ghost s = chars@.subrange(from as int, to as int);
    if from < to && chars[from] == '-' {
        proof {
            assert(s[0] == chars[from as int]);
            assert(s.skip(1) =~= chars@.subrange(from + 1, to as int));
        }
        match parse_digits(chars, from + 1, to, 0x8000_0000) {
            Some(v) => Some((-(v as i64)) as i32),
            None => None,
        }
    } else {
        proof {
            if from < to {
                assert(s[0] == chars[from as int]);
            }
        }
        match parse_digits(chars, from, to, 0x7fff_ffff) {
            Some(v) => Some(v as i32),
            None => None,
        }
    }
}

/// The shape of the text of a point: three numerals that hold no comma,
/// with a comma after the first and after the second.
pub proof fn lemma_coordinate_text(a: int, b: int, c: int)
    ensures
        ({
            let t = coordinate_text(a, b, c);
            let la = signed_decimal(a).len() as int;
            let lb = signed_decimal(b).len() as int;
            &&& t.len() == la + 1 + lb + 1 + signed_decimal(c).len()
            &&& forall|j: int| 0 <= j < la ==> t[j] != ','
            &&& t[la] == ','
            &&& forall|j: int| la < j < la + 1 + lb ==> t[j] != ','
            &&& t[la + 1 + lb] == ','
            &&& t.subrange(0, la) == signed_decimal(a)
            &&& t.subrange(la + 1, la + 1 + lb) == signed_decimal(b)
            &&& t.subrange(la + lb + 2, t.len() as int) == signed_decimal(c)
        }),
{
    lemma_signed_decimal(a);
    lemma_signed_decimal(b);
    lemma_signed_decimal(c);
    let ta = signed_decimal(a);
    let tb = signed_decimal(b);
    let tc = signed_decimal(c);
    let t = coordinate_text(a, b, c);
    let la = ta.len() as int;
    let lb = tb.len() as int;
    assert forall|j: int| 0 <= j < la implies t[j] != ',' by {
        assert(t[j] == ta[j]);
    }
    assert forall|j: int| la < j < la + 1 + lb implies t[j] != ',' by {
        assert(t[j] == tb[j - la - 1]);
    }
    assert(t.subrange(0, la) =~= ta);
    assert(t.subrange(la + 1, la + 1 + lb) =~= tb);
    assert(t.subrange(la + lb + 2, t.len() as int) =~= tc);
}

/// Two points with the same text are the same point.
pub proof fn lemma_coordinate_injective(a: int, b: int, c: int, x: int, y: int, z: int)
    requires
        coordinate_text(a, b, c) == coordinate_text(x, y, z),
    ensures
        a == x && b == y && c == z,
{
    lemma_coordinate_text(a, b, c);
    lemma_coordinate_text(x, y, z);
    lemma_signed_decimal(a);
    lemma_signed_decimal(b);
    lemma_signed_decimal(c);
    lemma_signed_decimal(x);
    lemma_signed_decimal(y);
    lemma_signed_decimal(z);
    let t = coordinate_text(a, b, c);
    let la = signed_decimal(a).len() as int;
    let lx = signed_decimal(x).len() as int;
    assert(la == lx) by {
        if la < lx {
            assert(t[la] == ',');
        } else if lx < la {
            assert(t[lx] == ',');
        }
    }
    let lb = signed_decimal(b).len() as int;
    let ly = signed_decimal(y).len() as int;
    assert(lb == ly) by {
        if lb < ly {
            assert(t[la + 1 + lb] == ',');
        } else if ly < lb {
            assert(t[la + 1 + ly] == ',');
        }
    }
}

/// The three numbers that stand in `chars` around its first two commas,
/// when they are numerals of numbers that fit 32 bits. The text of a
/// point always gives the point.
pub fn split_coordinates(chars: &Vec<char>) -> (r: Option<(i32, i32, i32)>)
    ensures
        forall|a: i32, b: i32, c: i32|
            chars@ == #[trigger] coordinate_text(a as int, b as int, c as int) ==> r == Some(
                (a, b, c),
            ),
{
    let n = chars.len();
    let first = find_char(chars, 0, n, ',');
    if first >= n {
        proof {
            assert forall|a: i32, b: i32, c: i32|
                chars@ != #[trigger] coordinate_text(a as int, b as int, c as int) by {
                lemma_coordinate_text(a as int, b as int, c as int);
            }
        }
        return None;
    }
    let second = find_char(chars, first + 1, n, ',');
    if second >= n {
        proof {
            assert forall|a: i32, b: i32, c: i32|
                chars@ != #[trigger] coordinate_text(a as int, b as int, c as int) by {
                lemma_coordinate_text(a as int, b as int, c as int);
                if chars@ == coordinate_text(a as int, b as int, c as int) {
                    assert(first == signed_decimal(a as int).len());
                }
            }
        }
        return None;
    }
    let x = parse_signed(chars, 0, first);
    let y = parse_signed(chars, first + 1, second);
    let z = parse_signed(chars, second + 1, n);
    proof {
        assert forall|a: i32, b: i32, c: i32|
            chars@ == #[trigger] coordinate_text(a as int, b as int, c as int) implies x == Some(a)
            && y == Some(b) && z == Some(c) by {
            lemma_coordinate_text(a as int, b as int, c as int);
            lemma_signed_decimal(a as int);
            lemma_signed_decimal(b as int);
            lemma_signed_decimal(c as int);
            assert(first == signed_decimal(a as int).len());
            assert(second == first + 1 + signed_decimal(b as int).len());
        }
    }
    match (x, y, z) {
        (Some(x), Some(y), Some(z)) => Some((x, y, z)),
        _ => None,
    }
}

/// The point whose text `x,y,z` is `key`, when `key` is such a text.
pub fn parse_coordinate_key(key: &str) -> (r: Option<(i32, i32, i32)>)
    ensures
        match r {
            Some(p) => key@ == coordinate_text(p.0 as int, p.1 as int, p.2 as int),
            None => forall|x: i32, y: i32, z: i32|
                key@ != #[trigger] coordinate_text(x as int, y as int, z as int),
        },
{
    let chars = to_chars(key);
    match split_coordinates(&chars) {
        Some((x, y, z)) => {
            let again = coordinate_key(x, y, z);
            if string_equals(&again, key) {
                Some((x, y, z))
            } else {
                None
            }
        },
        None => None,
    }
}

/// Whether two texts are the same.
pub fn string_equals(a: &String, b: &str) -> (r: bool)
    ensures
        r == (a@ == b@),
{
    let other = b.to_string();
    *a == other
}

} // verus!
