//! Text primitives: comma-separated fields, lines, trimming, and decimal
//! integers.
//!
//! A text is seen as its sequence of characters, and positions count
//! characters, not bytes. Reaching a character by its position walks the text
//! from its start, so these functions suit texts of the length of a line.
use vstd::prelude::*;
use vstd::string::*;

verus! {

/// Whether `c` is one of the ten decimal digits.
pub open spec fn is_digit(c: char) -> bool {
    48 <= (c as u32) && (c as u32) <= 57
}

/// The value of a decimal digit; zero for any other character.
pub open spec fn digit_of(c: char) -> nat {
    if is_digit(c) {
        ((c as u32) - 48) as nat
    } else {
        0
    }
}

/// Whether every character of `s` is a decimal digit.
pub open spec fn all_digits(s: Seq<char>) -> bool {
    forall|i: int| 0 <= i < s.len() ==> is_digit(#[trigger] s[i])
}

/// The number that a run of digits writes in base ten; zero for the empty run.
pub open spec fn digits_value(s: Seq<char>) -> nat
    decreases s.len(),
{
    if s.len() == 0 {
        0
    } else {
        digits_value(s.drop_last()) * 10 + digit_of(s.last())
    }
}

/// A prefix of a run of digits never writes a larger number than the whole run.
pub proof fn lemma_prefix_value(s: Seq<char>, k: int)
    requires
        0 <= k <= s.len(),
    ensures
        digits_value(s.take(k)) <= digits_value(s),
    decreases s.len() - k,
{
    if k == s.len() {
        assert(s.take(k) =~= s);
    } else {
        lemma_prefix_value(s, k + 1);
        assert(s.take(k + 1).drop_last() =~= s.take(k));
    }
}

/// Whether `c` is a decimal digit.
pub fn is_digit_char(c: char) -> (r: bool)
    ensures
        r == is_digit(c),
{
    let u: u32 = c as u32;
    48 <= u && u <= 57
}

/// Reads the characters `from..to` of `s` as a run of decimal digits.
///
/// Succeeds exactly when all of them are digits and the number they write
/// does not exceed `limit`. The bound on `limit` keeps the running value
/// within 64 bits.
pub fn read_digits(s: &str, from: usize, to: usize, limit: u64) -> (r: Option<u64>)
    requires
        from <= to <= s@.len(),
        limit <= 1_000_000_000_000_000_000,
    ensures
        r is Some <==> all_digits(s@.subrange(from as int, to as int)) && digits_value(
            s@.subrange(from as int, to as int),
        ) <= limit,
        r is Some ==> r.unwrap() == digits_value(s@.subrange(from as int, to as int)),
{
    let ghost whole = s@.subrange(from as int, to as int);
    let mut acc: u64 = 0;
    let mut i: usize = from;
    while i < to
        invariant
            from <= i <= to <= s@.len(),
            limit <= 1_000_000_000_000_000_000,
            whole == s@.subrange(from as int, to as int),
            all_digits(s@.subrange(from as int, i as int)),
            acc == digits_value(s@.subrange(from as int, i as int)),
            acc <= limit,
        decreases to - i,
    {
        let c = s.get_char(i);
        if !is_digit_char(c) {
            proof {
                assert(whole[i - from] == c);
            }
            return None;
        }
        let d: u64 = (c as u32 - 48) as u64;
        let next: u64 = acc * 10 + d;
        proof {
            let p = s@.subrange(from as int, i + 1);
            assert(p.drop_last() =~= s@.subrange(from as int, i as int));
            assert(p.last() == c);
            assert(next == digits_value(p));
            assert forall|j: int| 0 <= j < p.len() implies is_digit(#[trigger] p[j]) by {
                if j < p.len() - 1 {
                    assert(p[j] == s@.subrange(from as int, i as int)[j]);
                }
            }
            assert(whole.take(i + 1 - from) =~= p);
            lemma_prefix_value(whole, i + 1 - from);
        }
        if next > limit {
            return None;
        }
        acc = next;
        i += 1;
    }
    proof {
        assert(s@.subrange(from as int, i as int) == whole);
    }
    Some(acc)
}

/// Whether `s` starts with a plus or a minus sign.
pub open spec fn has_sign(s: Seq<char>) -> bool {
    s.len() > 0 && (s[0] == '+' || s[0] == '-')
}

/// Whether `s` starts with a minus sign.
pub open spec fn is_negative(s: Seq<char>) -> bool {
    s.len() > 0 && s[0] == '-'
}

/// `s` without its leading sign, if it has one.
pub open spec fn unsigned_part(s: Seq<char>) -> Seq<char> {
    if has_sign(s) {
        s.skip(1)
    } else {
        s
    }
}

/// The integer that `s` writes with its sign applied to `magnitude`.
pub open spec fn signed(s: Seq<char>, magnitude: nat) -> int {
    if is_negative(s) {
        -(magnitude as int)
    } else {
        magnitude as int
    }
}

/// The 32-bit integer that `s` writes in base ten: an optional sign, then at
/// least one digit and nothing else, with the value in range.
pub open spec fn i32_of_text(s: Seq<char>) -> Option<i32> {
    let body = unsigned_part(s);
    let v = signed(s, digits_value(body));
    if body.len() > 0 && all_digits(body) && i32::MIN <= v <= i32::MAX {
        Some(v as i32)
    } else {
        None
    }
}

/// The number of leading sign characters of `s`: zero or one.
pub fn sign_len(s: &str) -> (r: usize)
    ensures
        r == (if has_sign(s@) { 1int } else { 0int }),
        unsigned_part(s@) == s@.subrange(r as int, s@.len() as int),
{
    let n: usize = s.unicode_len();
    let r: usize = if n == 0 {
        0
    } else {
        let c = s.get_char(0);
        if c == '+' || c == '-' {
            1
        } else {
            0
        }
    };
    proof {
        assert(s@.skip(r as int) =~= s@.subrange(r as int, s@.len() as int));
        assert(s@ =~= s@.subrange(0, s@.len() as int));
    }
    r
}

/// Whether `s` starts with a minus sign.
pub fn starts_negative(s: &str) -> (r: bool)
    ensures
        r == is_negative(s@),
{
    s.unicode_len() > 0 && s.get_char(0) == '-'
}

/// Parses a base-ten 32-bit integer.
pub fn parse_i32(s: &str) -> (r: Option<i32>)
    ensures
        r == i32_of_text(s@),
{
    let n: usize = s.unicode_len();
    let start: usize = sign_len(s);
    if start == n {
        return None;
    }
    let negative = starts_negative(s);
    match read_digits(s, start, n, 2147483648) {
        None => None,
        Some(m) => {
            if negative {
                let v: i64 = 0 - (m as i64);
                Some(v as i32)
            } else if m > 2147483647 {
                None
            } else {
                Some(m as i32)
            }
        },
    }
}

/// Whether `c` has the Unicode property White_Space.
pub open spec fn is_white_space(c: char) -> bool {
    let u = c as u32;
    ||| (9 <= u && u <= 13)
    ||| u == 0x20
    ||| u == 0x85
    ||| u == 0xA0
    ||| u == 0x1680
    ||| (0x2000 <= u && u <= 0x200A)
    ||| u == 0x2028
    ||| u == 0x2029
    ||| u == 0x202F
    ||| u == 0x205F
    ||| u == 0x3000
}

/// Whether `c` has the Unicode property White_Space.
pub fn is_white_space_char(c: char) -> (r: bool)
    ensures
        r == is_white_space(c),
{
    let u: u32 = c as u32;
    (9 <= u && u <= 13) || u == 0x20 || u == 0x85 || u == 0xA0 || u == 0x1680 || (0x2000 <= u
        && u <= 0x200A) || u == 0x2028 || u == 0x2029 || u == 0x202F || u == 0x205F || u
        == 0x3000
}

/// `s` without its leading white space.
pub open spec fn trim_start(s: Seq<char>) -> Seq<char>
    decreases s.len(),
{
    if s.len() > 0 && is_white_space(s[0]) {
        trim_start(s.skip(1))
    } else {
        s
    }
}

/// `s` without its trailing white space.
pub open spec fn trim_end(s: Seq<char>) -> Seq<char>
    decreases s.len(),
{
    if s.len() > 0 && is_white_space(s.last()) {
        trim_end(s.drop_last())
    } else {
        s
    }
}

/// `s` without its leading and trailing white space.
pub open spec fn trimmed(s: Seq<char>) -> Seq<char> {
    trim_end(trim_start(s))
}

/// Trimming leaves a contiguous part of the text, and white space at neither
/// end of it.
pub proof fn lemma_trimmed_ends(s: Seq<char>)
    ensures
        trimmed(s).len() <= s.len(),
        trimmed(s).len() > 0 ==> !is_white_space(trimmed(s)[0]) && !is_white_space(
            trimmed(s).last(),
        ),
        exists|a: int, b: int| 0 <= a <= b <= s.len() && trimmed(s) == s.subrange(a, b),
{
    lemma_trim_start_range(s);
    let a = choose|a: int| 0 <= a <= s.len() && trim_start(s) == s.subrange(a, s.len() as int);
    let t = trim_start(s);
    lemma_trim_end_range(t);
    let b = choose|b: int| 0 <= b <= t.len() && trim_end(t) == t.subrange(0, b);
    assert(t.subrange(0, b) =~= s.subrange(a, a + b));
}

/// Trimming a trimmed text changes nothing.
pub proof fn lemma_trim_idempotent(s: Seq<char>)
    ensures
        trimmed(trimmed(s)) == trimmed(s),
{
    lemma_trimmed_ends(s);
}

/// What `trim_start` leaves is a suffix that does not begin with white space.
pub proof fn lemma_trim_start_range(s: Seq<char>)
    ensures
        exists|a: int| 0 <= a <= s.len() && trim_start(s) == s.subrange(a, s.len() as int),
        trim_start(s).len() > 0 ==> !is_white_space(trim_start(s)[0]),
    decreases s.len(),
{
    if s.len() > 0 && is_white_space(s[0]) {
        let r = s.skip(1);
        lemma_trim_start_range(r);
        let a = choose|a: int| 0 <= a <= r.len() && trim_start(r) == r.subrange(a, r.len() as int);
        assert(r.subrange(a, r.len() as int) =~= s.subrange(a + 1, s.len() as int));
    } else {
        assert(s =~= s.subrange(0, s.len() as int));
    }
}

/// What `trim_end` leaves is a prefix that does not end with white space, and
/// it begins as the text does.
pub proof fn lemma_trim_end_range(s: Seq<char>)
    ensures
        exists|b: int| 0 <= b <= s.len() && trim_end(s) == s.subrange(0, b),
        trim_end(s).len() > 0 ==> !is_white_space(trim_end(s).last()) && trim_end(s)[0] == s[0],
    decreases s.len(),
{
    if s.len() > 0 && is_white_space(s.last()) {
        let r = s.drop_last();
        lemma_trim_end_range(r);
        let b = choose|b: int| 0 <= b <= r.len() && trim_end(r) == r.subrange(0, b);
        assert(r.subrange(0, b) =~= s.subrange(0, b));
    } else {
        assert(s =~= s.subrange(0, s.len() as int));
    }
}

/// The part of `s` that is left when leading and trailing white space is
/// removed.
pub fn trim<'a>(s: &'a str) -> (r: &'a str)
    ensures
        r@ == trimmed(s@),
{
    let n: usize = s.unicode_len();
    let mut a: usize = 0;
    proof {
        assert(s@.subrange(0, n as int) =~= s@);
    }
    while a < n && is_white_space_char(s.get_char(a))
        invariant
            a <= n == s@.len(),
            trim_start(s@) == trim_start(s@.subrange(a as int, n as int)),
        decreases n - a,
    {
        proof {
            let cur = s@.subrange(a as int, n as int);
            assert(cur.skip(1) =~= s@.subrange(a + 1, n as int));
        }
        a += 1;
    }
    let mut b: usize = n;
    while b > a && is_white_space_char(s.get_char(b - 1))
        invariant
            a <= b <= n == s@.len(),
            trim_start(s@) == s@.subrange(a as int, n as int),
            trimmed(s@) == trim_end(s@.subrange(a as int, b as int)),
        decreases b,
    {
        proof {
            let cur = s@.subrange(a as int, b as int);
            assert(cur.drop_last() =~= s@.subrange(a as int, b - 1));
        }
        b -= 1;
    }
    s.substring_char(a, b)
}

/// The pieces of a text between the occurrences of `sep`, in order. A text
/// without `sep` is one piece; the empty text is one empty piece.
pub open spec fn pieces(s: Seq<char>, sep: char) -> Seq<Seq<char>>
    decreases s.len(),
{
    if s.len() == 0 {
        seq![Seq::<char>::empty()]
    } else if s.last() == sep {
        pieces(s.drop_last(), sep).push(Seq::<char>::empty())
    } else {
        let before = pieces(s.drop_last(), sep);
        before.drop_last().push(before.last().push(s.last()))
    }
}

/// `parts` written one after the other with `sep` between neighbours.
pub open spec fn joined(parts: Seq<Seq<char>>, sep: char) -> Seq<char>
    decreases parts.len(),
{
    if parts.len() == 0 {
        Seq::empty()
    } else if parts.len() == 1 {
        parts[0]
    } else {
        joined(parts.drop_last(), sep).push(sep) + parts.last()
    }
}

/// The fields of a line: the pieces between its commas.
pub open spec fn fields_of(s: Seq<char>) -> Seq<Seq<char>> {
    pieces(s, ',')
}

/// A text has one piece more than it has separators, and no piece holds a
/// separator.
pub proof fn lemma_pieces_shape(s: Seq<char>, sep: char)
    ensures
        pieces(s, sep).len() == 1 + s.filter(|c: char| c == sep).len(),
        forall|i: int, j: int|
            0 <= i < pieces(s, sep).len() && 0 <= j < pieces(s, sep)[i].len() ==> pieces(
                s,
                sep,
            )[i][j] != sep,
    decreases s.len(),
{
    let seps = |c: char| c == sep;
    if s.len() == 0 {
        assert(s.filter(seps).len() == 0) by {
            reveal(Seq::filter);
        }
    } else {
        lemma_pieces_shape(s.drop_last(), sep);
        assert(s.filter(seps).len() == s.drop_last().filter(seps).len() + (if s.last() == sep {
            1int
        } else {
            0int
        })) by {
            reveal(Seq::filter);
        }
    }
}

/// The pieces of a text, joined by the separator, give the text back.
pub proof fn lemma_pieces_join(s: Seq<char>, sep: char)
    ensures
        joined(pieces(s, sep), sep) == s,
    decreases s.len(),
{
    if s.len() > 0 {
        let before = pieces(s.drop_last(), sep);
        lemma_pieces_join(s.drop_last(), sep);
        lemma_pieces_shape(s.drop_last(), sep);
        let now = pieces(s, sep);
        if s.last() == sep {
            assert(now.drop_last() =~= before);
            assert(joined(now, sep) =~= s.drop_last().push(sep));
        } else if before.len() == 1 {
            assert(joined(now, sep) =~= s.drop_last().push(s.last()));
        } else {
            assert(now.drop_last() =~= before.drop_last());
            assert(joined(now, sep) =~= joined(before, sep).push(s.last()));
        }
        assert(s.drop_last().push(s.last()) =~= s);
    }
}

/// A text without separators is one piece: itself.
pub proof fn lemma_pieces_whole(s: Seq<char>, sep: char)
    requires
        forall|i: int| 0 <= i < s.len() ==> s[i] != sep,
    ensures
        pieces(s, sep) == seq![s],
    decreases s.len(),
{
    if s.len() == 0 {
        assert(s =~= Seq::<char>::empty());
    } else {
        let front = s.drop_last();
        assert forall|i: int| 0 <= i < front.len() implies front[i] != sep by {
            assert(front[i] == s[i]);
        }
        lemma_pieces_whole(front, sep);
        assert(s[s.len() - 1] != sep);
        assert(front.push(s.last()) =~= s);
        assert(seq![front].drop_last().push(s) =~= seq![s]);
    }
}

/// Splits a text at every occurrence of `sep`.
pub fn split<'a>(s: &'a str, sep: char) -> (r: Vec<&'a str>)
    ensures
        r@.len() == pieces(s@, sep).len(),
        forall|i: int| 0 <= i < r@.len() ==> (#[trigger] r@[i])@ == pieces(s@, sep)[i],
{
    let n: usize = s.unicode_len();
    let mut out: Vec<&'a str> = Vec::new();
    let mut start: usize = 0;
    let mut i: usize = 0;
    while i < n
        invariant
            start <= i <= n == s@.len(),
            pieces(s@.subrange(0, i as int), sep).len() == out@.len() + 1,
            forall|k: int|
                0 <= k < out@.len() ==> (#[trigger] out@[k])@ == pieces(
                    s@.subrange(0, i as int),
                    sep,
                )[k],
            pieces(s@.subrange(0, i as int), sep).last() == s@.subrange(start as int, i as int),
        decreases n - i,
    {
        let c = s.get_char(i);
        proof {
            let next = s@.subrange(0, i + 1);
            assert(next.drop_last() =~= s@.subrange(0, i as int));
            assert(next.last() == c);
            assert(s@.subrange(start as int, i as int).push(c) =~= s@.subrange(
                start as int,
                i + 1,
            ));
        }
        if c == sep {
            out.push(s.substring_char(start, i));
            start = i + 1;
            proof {
                assert(s@.subrange(start as int, i + 1) =~= Seq::<char>::empty());
            }
        }
        i += 1;
    }
    out.push(s.substring_char(start, n));
    proof {
        assert(s@.subrange(0, n as int) =~= s@);
    }
    out
}

/// Splits a line at its commas.
pub fn split_fields<'a>(s: &'a str) -> (r: Vec<&'a str>)
    ensures
        r@.len() == fields_of(s@).len(),
        forall|i: int| 0 <= i < r@.len() ==> (#[trigger] r@[i])@ == fields_of(s@)[i],
{
    split(s, ',')
}

/// `l` without the carriage return at its end, if it has one.
pub open spec fn without_return(l: Seq<char>) -> Seq<char> {
    if l.len() > 0 && l.last() == '\r' {
        l.drop_last()
    } else {
        l
    }
}

/// The lines of a text. A line ends with a line feed, or with a carriage
/// return and a line feed, neither of which belongs to it; what stands after
/// the last line feed is a line of its own unless it is empty.
pub open spec fn lines_of(content: Seq<char>) -> Seq<Seq<char>> {
    let p = pieces(content, '\n');
    let ended = p.drop_last().map_values(|l: Seq<char>| without_return(l));
    if p.last().len() == 0 {
        ended
    } else {
        ended.push(p.last())
    }
}

/// Splits a text into its lines.
pub fn split_lines<'a>(content: &'a str) -> (r: Vec<&'a str>)
    ensures
        r@.len() == lines_of(content@).len(),
        forall|i: int| 0 <= i < r@.len() ==> (#[trigger] r@[i])@ == lines_of(content@)[i],
{
    proof {
        lemma_pieces_shape(content@, '\n');
    }
    let parts = split(content, '\n');
    let ghost p = pieces(content@, '\n');
    let ghost ended = p.drop_last().map_values(|l: Seq<char>| without_return(l));
    let last: usize = parts.len() - 1;
    let mut out: Vec<&'a str> = Vec::new();
    let mut i: usize = 0;
    while i < last
        invariant
            i <= last == parts@.len() - 1,
            parts@.len() == p.len(),
            forall|k: int| 0 <= k < parts@.len() ==> (#[trigger] parts@[k])@ == p[k],
            ended == p.drop_last().map_values(|l: Seq<char>| without_return(l)),
            out@.len() == i,
            forall|k: int| 0 <= k < i ==> (#[trigger] out@[k])@ == ended[k],
        decreases last - i,
    {
        let l: &'a str = parts[i];
        let n: usize = l.unicode_len();
        let line: &'a str = if n > 0 && l.get_char(n - 1) == '\r' {
            proof {
                assert(l@.subrange(0, n - 1) =~= l@.drop_last());
            }
            l.substring_char(0, n - 1)
        } else {
            l
        };
        proof {
            assert(p.drop_last()[i as int] == p[i as int]);
        }
        out.push(line);
        i += 1;
    }
    let tail: &'a str = parts[last];
    if tail.unicode_len() > 0 {
        out.push(tail);
    }
    out
}

/// The character that writes the digit `d`.
pub open spec fn digit_char(d: nat) -> char {
    ((48 + d) as u8) as char
}

/// The digits that write `n` in base ten, without leading zeros.
pub open spec fn nat_text(n: nat) -> Seq<char>
    decreases n,
{
    if n < 10 {
        seq![digit_char(n)]
    } else {
        nat_text(n / 10).push(digit_char(n % 10))
    }
}

/// The text that writes `v` in base ten, with a minus sign if it is negative.
pub open spec fn int_text(v: int) -> Seq<char> {
    if v < 0 {
        seq!['-'] + nat_text((-v) as nat)
    } else {
        nat_text(v as nat)
    }
}

/// What `nat_text` writes is a non-empty run of digits that reads back as the
/// same number.
pub proof fn lemma_nat_text_reads_back(n: nat)
    ensures
        nat_text(n).len() > 0,
        all_digits(nat_text(n)),
        digits_value(nat_text(n)) == n,
    decreases n,
{
    if n < 10 {
        let t = nat_text(n);
        assert(t.drop_last() =~= Seq::<char>::empty());
        assert(digit_of(t.last()) == n);
        reveal_with_fuel(digits_value, 2);
    } else {
        lemma_nat_text_reads_back(n / 10);
        let t = nat_text(n);
        assert(t.drop_last() =~= nat_text(n / 10));
        assert(digit_of(t.last()) == n % 10);
        assert forall|i: int| 0 <= i < t.len() implies is_digit(#[trigger] t[i]) by {
            if i < t.len() - 1 {
                assert(t[i] == nat_text(n / 10)[i]);
            }
        }
    }
}

/// Writing a 32-bit integer and parsing the text gives the integer back.
pub proof fn lemma_int_text_reads_back(v: i32)
    ensures
        i32_of_text(int_text(v as int)) == Some(v),
{
    let t = int_text(v as int);
    if v < 0 {
        let digits = nat_text((-v) as nat);
        lemma_nat_text_reads_back((-v) as nat);
        assert(t[0] == '-');
        assert(t.skip(1) =~= digits);
    } else {
        lemma_nat_text_reads_back(v as nat);
        assert(is_digit(t[0]));
    }
}

/// The one-character text of the digit `d`.
fn digit_text(d: u64) -> (r: &'static str)
    requires
        d < 10,
    ensures
        r@ == seq![digit_char(d as nat)],
{
    proof {
        reveal_strlit("0");
        reveal_strlit("1");
        reveal_strlit("2");
        reveal_strlit("3");
        reveal_strlit("4");
        reveal_strlit("5");
        reveal_strlit("6");
        reveal_strlit("7");
        reveal_strlit("8");
        reveal_strlit("9");
    }
    let r = if d == 0 {
        "0"
    } else if d == 1 {
        "1"
    } else if d == 2 {
        "2"
    } else if d == 3 {
        "3"
    } else if d == 4 {
        "4"
    } else if d == 5 {
        "5"
    } else if d == 6 {
        "6"
    } else if d == 7 {
        "7"
    } else if d == 8 {
        "8"
    } else {
        "9"
    };
    proof {
        assert(r@ =~= seq![digit_char(d as nat)]);
    }
    r
}

/// Writes `n` in base ten.
pub fn write_nat(n: u64) -> (r: String)
    ensures
        r@ == nat_text(n as nat),
    decreases n,
{
    if n < 10 {
        String::from_str(digit_text(n))
    } else {
        let mut s = write_nat(n / 10);
        let ghost before = s@;
        s.append(digit_text(n % 10));
        proof {
            assert(s@ =~= before.push(digit_char((n % 10) as nat)));
        }
        s
    }
}

/// Writes `v` in base ten, with a minus sign if it is negative.
pub fn write_i32(v: i32) -> (r: String)
    ensures
        r@ == int_text(v as int),
{
    if v < 0 {
        let magnitude: u64 = (0 - (v as i64)) as u64;
        let digits = write_nat(magnitude);
        proof {
            reveal_strlit("-");
            assert("-"@ =~= seq!['-']);
        }
        String::from_str("-").concat(digits.as_str())
    } else {
        write_nat(v as u64)
    }
}

} // verus!
