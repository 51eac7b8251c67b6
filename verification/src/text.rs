//! Text handling shared by the two file formats the library reads: splitting
//! into lines, trimming, decoding UTF-8 and reading decimal numbers.
use std::io::BufRead;
use vstd::prelude::*;
use vstd::utf8::{decode_utf8, encode_scalar, encode_utf8, is_ascii_chars, valid_utf8};

verus! {

/// Declares `std::num::ParseIntError` to Verus as an opaque type.
#[verifier::external_type_specification]
#[verifier::external_body]
pub struct ExParseIntError(std::num::ParseIntError);

/// Declares `std::io::Error` to Verus as an opaque type.
#[verifier::external_type_specification]
#[verifier::external_body]
pub struct ExIoError(std::io::Error);

// ---- lines ----------------------------------------------------------------

/// The index of the first `x` in `s`, or `s.len()` if there is none.
pub open spec fn first_index_of<A>(s: Seq<A>, x: A) -> int
    decreases s.len(),
{
    if s.len() == 0 {
        0
    } else if s[0] == x {
        0
    } else {
        1 + first_index_of(s.drop_first(), x)
    }
}

/// `s` without one trailing `cr`.
pub open spec fn strip_last<A>(s: Seq<A>, cr: A) -> Seq<A> {
    if s.len() > 0 && s.last() == cr {
        s.drop_last()
    } else {
        s
    }
}

/// The lines of `s`, as `str::lines` and `BufRead::lines` cut them: at every
/// `nl`, with one `cr` right before it dropped; a last line without `nl` is
/// kept as it stands, and nothing follows a final `nl`.
pub open spec fn lines_of<A>(s: Seq<A>, nl: A, cr: A) -> Seq<Seq<A>>
    decreases s.len(),
{
    if s.len() == 0 {
        Seq::empty()
    } else {
        let i = first_index_of(s, nl);
        proof {
            lemma_first_index_of(s, nl);
        }
        if i >= s.len() {
            seq![s]
        } else {
            seq![strip_last(s.subrange(0, i), cr)] + lines_of(s.subrange(i + 1, s.len() as int), nl, cr)
        }
    }
}

/// No line holds a newline.
pub proof fn lemma_lines_no_newline(s: Seq<u8>)
    ensures
        forall|k: int, j: int|
            0 <= k < lines_of(s, 10u8, 13u8).len() && 0 <= j < lines_of(s, 10u8, 13u8)[k].len() ==> #[trigger] lines_of(
                s,
                10u8,
                13u8,
            )[k][j] != 10u8,
    decreases s.len(),
{
    if s.len() > 0 {
        let i = first_index_of(s, 10u8);
        lemma_first_index_of(s, 10u8);
        if i < s.len() {
            let rest = s.subrange(i + 1, s.len() as int);
            lemma_lines_no_newline(rest);
            let head = strip_last(s.subrange(0, i), 13u8);
            let ls = lines_of(s, 10u8, 13u8);
            assert(ls == seq![head] + lines_of(rest, 10u8, 13u8));
            assert forall|k: int, j: int| 0 <= k < ls.len() && 0 <= j < ls[k].len() implies #[trigger] ls[k][j] != 10u8 by {
                if k == 0 {
                    assert(ls[0] == head);
                    assert(head[j] == s[j]);
                } else {
                    assert(ls[k] == lines_of(rest, 10u8, 13u8)[k - 1]);
                }
            }
        }
    }
}

pub proof fn lemma_first_index_of<A>(s: Seq<A>, x: A)
    ensures
        0 <= first_index_of(s, x) <= s.len(),
        forall|j: int| 0 <= j < first_index_of(s, x) ==> s[j] != x,
        first_index_of(s, x) < s.len() ==> s[first_index_of(s, x)] == x,
    decreases s.len(),
{
    if s.len() > 0 && s[0] != x {
        lemma_first_index_of(s.drop_first(), x);
        assert forall|j: int| 0 <= j < first_index_of(s, x) implies s[j] != x by {
            if j > 0 {
                assert(s[j] == s.drop_first()[j - 1]);
            }
        }
    }
}

proof fn lemma_first_index_at<A>(s: Seq<A>, x: A, i: int)
    requires
        0 <= i <= s.len(),
        forall|j: int| 0 <= j < i ==> s[j] != x,
        i < s.len() ==> s[i] == x,
    ensures
        first_index_of(s, x) == i,
    decreases s.len(),
{
    lemma_first_index_of(s, x);
    if first_index_of(s, x) < i {
    } else if first_index_of(s, x) > i {
        assert(s[i] == x);
    }
}

/// The lines of a byte string, as `BufRead::lines` reads them (before
/// decoding).
pub fn byte_lines(s: &[u8]) -> (r: Vec<Vec<u8>>)
    ensures
        r@.map_values(|l: Vec<u8>| l@) == lines_of(s@, 10u8, 13u8),
{
    let mut out: Vec<Vec<u8>> = Vec::new();
    let mut start: usize = 0;
    let mut cur: Vec<u8> = Vec::new();
    let mut i: usize = 0;
    assert(s@.subrange(0, s@.len() as int) == s@);
    assert(out@.map_values(|l: Vec<u8>| l@) == Seq::<Seq<u8>>::empty());
    while i < s.len()
        invariant
            start <= i <= s@.len(),
            cur@ == s@.subrange(start as int, i as int),
            forall|j: int| start <= j < i ==> s@[j] != 10u8,
            out@.map_values(|l: Vec<u8>| l@) + lines_of(s@.subrange(start as int, s@.len() as int), 10u8, 13u8)
                == lines_of(s@, 10u8, 13u8),
        decreases s@.len() - i,
    {
        if s[i] == 10u8 {
            let ghost rest = s@.subrange(start as int, s@.len() as int);
            proof {
                lemma_first_index_at(rest, 10u8, (i - start) as int);
                assert(rest.subrange(0, (i - start) as int) == cur@);
                assert(rest.subrange((i - start) + 1, rest.len() as int) == s@.subrange(
                    i + 1,
                    s@.len() as int,
                ));
            }
            let mut line = cur;
            if line.len() > 0 && line[line.len() - 1] == 13u8 {
                line.pop();
            }
            let ghost before = out@;
            out.push(line);
            proof {
                assert(out@.map_values(|l: Vec<u8>| l@) == before.map_values(|l: Vec<u8>| l@).push(
                    strip_last(cur@, 13u8),
                ));
            }
            cur = Vec::new();
            start = i + 1;
        } else {
            cur.push(s[i]);
        }
        i = i + 1;
    }
    if start < s.len() {
        let ghost rest = s@.subrange(start as int, s@.len() as int);
        proof {
            lemma_first_index_at(rest, 10u8, rest.len() as int);
        }
        let ghost before = out@;
        out.push(cur);
        proof {
            assert(out@.map_values(|l: Vec<u8>| l@) == before.map_values(|l: Vec<u8>| l@).push(
                rest,
            ));
        }
    } else {
        proof {
            assert(s@.subrange(start as int, s@.len() as int).len() == 0);
        }
    }
    out
}

/// The lines of a character string, as `str::lines` cuts them.
pub fn char_lines(s: &[char]) -> (r: Vec<Vec<char>>)
    ensures
        r@.map_values(|l: Vec<char>| l@) == lines_of(s@, '\n', '\r'),
{
    let mut out: Vec<Vec<char>> = Vec::new();
    let mut start: usize = 0;
    let mut cur: Vec<char> = Vec::new();
    let mut i: usize = 0;
    assert(s@.subrange(0, s@.len() as int) == s@);
    assert(out@.map_values(|l: Vec<char>| l@) == Seq::<Seq<char>>::empty());
    while i < s.len()
        invariant
            start <= i <= s@.len(),
            cur@ == s@.subrange(start as int, i as int),
            forall|j: int| start <= j < i ==> s@[j] != '\n',
            out@.map_values(|l: Vec<char>| l@) + lines_of(s@.subrange(start as int, s@.len() as int), '\n', '\r')
                == lines_of(s@, '\n', '\r'),
        decreases s@.len() - i,
    {
        if s[i] == '\n' {
            let ghost rest = s@.subrange(start as int, s@.len() as int);
            proof {
                lemma_first_index_at(rest, '\n', (i - start) as int);
                assert(rest.subrange(0, (i - start) as int) == cur@);
                assert(rest.subrange((i - start) + 1, rest.len() as int) == s@.subrange(
                    i + 1,
                    s@.len() as int,
                ));
            }
            let mut line = cur;
            if line.len() > 0 && line[line.len() - 1] == '\r' {
                line.pop();
            }
            let ghost before = out@;
            out.push(line);
            proof {
                assert(out@.map_values(|l: Vec<char>| l@) == before.map_values(|l: Vec<char>| l@).push(
                    strip_last(cur@, '\r'),
                ));
            }
            cur = Vec::new();
            start = i + 1;
        } else {
            cur.push(s[i]);
        }
        i = i + 1;
    }
    if start < s.len() {
        let ghost rest = s@.subrange(start as int, s@.len() as int);
        proof {
            lemma_first_index_at(rest, '\n', rest.len() as int);
        }
        let ghost before = out@;
        out.push(cur);
        proof {
            assert(out@.map_values(|l: Vec<char>| l@) == before.map_values(|l: Vec<char>| l@).push(
                rest,
            ));
        }
    } else {
        proof {
            assert(s@.subrange(start as int, s@.len() as int).len() == 0);
        }
    }
    out
}

// ---- whitespace ------------------------------------------------------------

/// Unicode `White_Space`, the property `char::is_whitespace` tests.
pub open spec fn is_space(c: char) -> bool {
    let u = c as u32;
    ||| 0x9 <= u <= 0xD
    ||| u == 0x20
    ||| u == 0x85
    ||| u == 0xA0
    ||| u == 0x1680
    ||| 0x2000 <= u <= 0x200A
    ||| u == 0x2028
    ||| u == 0x2029
    ||| u == 0x202F
    ||| u == 0x205F
    ||| u == 0x3000
}

/// `char::is_whitespace`.
pub fn is_whitespace(c: char) -> (r: bool)
    ensures
        r == is_space(c),
{
    let u = c as u32;
    (0x9 <= u && u <= 0xD) || u == 0x20 || u == 0x85 || u == 0xA0 || u == 0x1680 || (0x2000 <= u
        && u <= 0x200A) || u == 0x2028 || u == 0x2029 || u == 0x202F || u == 0x205F || u == 0x3000
}

/// `s` without its leading whitespace (`str::trim_start`).
pub open spec fn trim_start_spec(s: Seq<char>) -> Seq<char>
    decreases s.len(),
{
    if s.len() > 0 && is_space(s[0]) {
        trim_start_spec(s.drop_first())
    } else {
        s
    }
}

/// `s` without its trailing whitespace (`str::trim_end`).
pub open spec fn trim_end_spec(s: Seq<char>) -> Seq<char>
    decreases s.len(),
{
    if s.len() > 0 && is_space(s.last()) {
        trim_end_spec(s.drop_last())
    } else {
        s
    }
}

/// `s` without leading and trailing whitespace (`str::trim`).
pub open spec fn trim_spec(s: Seq<char>) -> Seq<char> {
    trim_end_spec(trim_start_spec(s))
}

/// The first `k` characters of `s` are whitespace and the next is not.
proof fn lemma_trim_start_at(s: Seq<char>, k: int)
    requires
        0 <= k <= s.len(),
        forall|j: int| 0 <= j < k ==> is_space(s[j]),
        k < s.len() ==> !is_space(s[k]),
    ensures
        trim_start_spec(s) == s.subrange(k, s.len() as int),
    decreases s.len(),
{
    if k > 0 {
        lemma_trim_start_at(s.drop_first(), k - 1);
        assert(s.drop_first().subrange(k - 1, s.len() - 1) == s.subrange(k, s.len() as int));
    } else {
        assert(s.subrange(0, s.len() as int) == s);
    }
}

proof fn lemma_trim_end_at(s: Seq<char>, k: int)
    requires
        0 <= k <= s.len(),
        forall|j: int| k <= j < s.len() ==> is_space(s[j]),
        k > 0 ==> !is_space(s[k - 1]),
    ensures
        trim_end_spec(s) == s.subrange(0, k),
    decreases s.len(),
{
    if k < s.len() {
        lemma_trim_end_at(s.drop_last(), k);
        assert(s.drop_last().subrange(0, k) == s.subrange(0, k));
    } else {
        assert(s.subrange(0, s.len() as int) == s);
    }
}

/// `str::trim_start`.
pub fn trim_start(s: &[char]) -> (r: Vec<char>)
    ensures
        r@ == trim_start_spec(s@),
{
    let mut k: usize = 0;
    while k < s.len() && is_whitespace(s[k])
        invariant
            k <= s@.len(),
            forall|j: int| 0 <= j < k ==> is_space(s@[j]),
        decreases s@.len() - k,
    {
        k = k + 1;
    }
    proof {
        lemma_trim_start_at(s@, k as int);
    }
    let mut out: Vec<char> = Vec::new();
    let mut i: usize = k;
    while i < s.len()
        invariant
            k <= i <= s@.len(),
            out@ == s@.subrange(k as int, i as int),
        decreases s@.len() - i,
    {
        out.push(s[i]);
        i = i + 1;
    }
    out
}

/// `str::trim`.
pub fn trim(s: &[char]) -> (r: Vec<char>)
    ensures
        r@ == trim_spec(s@),
{
    let t = trim_start(s);
    let mut k: usize = t.len();
    while k > 0 && is_whitespace(t[k - 1])
        invariant
            k <= t@.len(),
            forall|j: int| k <= j < t@.len() ==> is_space(t@[j]),
        decreases k,
    {
        k = k - 1;
    }
    proof {
        lemma_trim_end_at(t@, k as int);
    }
    let mut out: Vec<char> = Vec::new();
    let mut i: usize = 0;
    while i < k
        invariant
            i <= k <= t@.len(),
            out@ == t@.subrange(0, i as int),
        decreases k - i,
    {
        out.push(t[i]);
        i = i + 1;
    }
    out
}


/// The characters of `s`, in order.
pub fn str_chars(s: &str) -> (r: Vec<char>)
    ensures
        r@ == s@,
{
    broadcast use vstd::string::axiom_spec_iter;
    let mut out: Vec<char> = Vec::new();
    for c in it: s.chars()
        invariant
            out@ == it.seq().take(it.index() as int),
    {
        out.push(c);
    }
    out
}

/// The two character strings are equal.
pub fn chars_eq(a: &[char], b: &[char]) -> (r: bool)
    ensures
        r == (a@ == b@),
{
    if a.len() != b.len() {
        return false;
    }
    let mut i: usize = 0;
    while i < a.len()
        invariant
            a@.len() == b@.len(),
            i <= a@.len(),
            forall|j: int| 0 <= j < i ==> a@[j] == b@[j],
        decreases a@.len() - i,
    {
        if a[i] != b[i] {
            return false;
        }
        i = i + 1;
    }
    assert(a@ == b@);
    true
}

// ---- decimal numbers -------------------------------------------------------

/// An ASCII decimal digit.
pub open spec fn is_digit(c: char) -> bool {
    '0' as u32 <= c as u32 <= '9' as u32
}

/// The value of a string of decimal digits.
pub open spec fn digits_value(s: Seq<char>) -> nat
    decreases s.len(),
{
    if s.len() == 0 {
        0
    } else {
        digits_value(s.drop_last()) * 10 + (s.last() as u32 - '0' as u32) as nat
    }
}

/// What `str::parse::<usize>` accepts: an optional `+`, then one or more
/// decimal digits whose value fits a `usize`; and the value it reads.
pub open spec fn parse_usize_spec(s: Seq<char>) -> Option<usize> {
    let d = if s.len() > 0 && s[0] == '+' {
        s.drop_first()
    } else {
        s
    };
    if d.len() > 0 && (forall|i: int| 0 <= i < d.len() ==> is_digit(d[i])) && digits_value(d)
        <= usize::MAX {
        Some(digits_value(d) as usize)
    } else {
        None
    }
}

/// `str::parse::<usize>`.
#[verifier::external_body]
pub(crate) fn parse_usize(s: &String) -> (r: Result<usize, std::num::ParseIntError>)
    ensures
        match r {
            Ok(v) => parse_usize_spec(s@) == Some(v),
            Err(_) => parse_usize_spec(s@) is None,
        },
{
    s.parse::<usize>()
}

/// A decimal digit's character.
pub open spec fn digit_char(d: nat) -> char {
    if d == 0 {
        '0'
    } else if d == 1 {
        '1'
    } else if d == 2 {
        '2'
    } else if d == 3 {
        '3'
    } else if d == 4 {
        '4'
    } else if d == 5 {
        '5'
    } else if d == 6 {
        '6'
    } else if d == 7 {
        '7'
    } else if d == 8 {
        '8'
    } else {
        '9'
    }
}

/// The decimal digits of `n`, most significant first, without leading zeros.
pub open spec fn dec_chars(n: nat) -> Seq<char>
    decreases n,
{
    if n < 10 {
        seq![digit_char(n)]
    } else {
        dec_chars(n / 10).push(digit_char(n % 10))
    }
}

proof fn lemma_digit_char(d: nat)
    requires
        d < 10,
    ensures
        is_digit(digit_char(d)),
        digit_char(d) as u32 - '0' as u32 == d,
        digit_char(d) != '+',
        '\0' <= digit_char(d) <= '\u{7f}',
{
}

/// What `dec_chars` writes reads back as the same number.
pub proof fn lemma_dec_chars(n: nat)
    requires
        n <= usize::MAX,
    ensures
        dec_chars(n).len() > 0,
        is_ascii_chars(dec_chars(n)),
        forall|i: int| 0 <= i < dec_chars(n).len() ==> is_digit(#[trigger] dec_chars(n)[i]),
        digits_value(dec_chars(n)) == n,
        parse_usize_spec(dec_chars(n)) == Some(n as usize),
    decreases n,
{
    if n >= 10 {
        lemma_dec_chars(n / 10);
        lemma_digit_char(n % 10);
        let d = dec_chars(n / 10);
        let s = dec_chars(n);
        assert(s == d.push(digit_char(n % 10)));
        assert(s.drop_last() == d);
        assert forall|i: int| 0 <= i < s.len() implies is_digit(#[trigger] s[i]) by {
            if i < d.len() {
                assert(s[i] == d[i]);
            }
        }
        assert((n / 10) * 10 + n % 10 == n) by (nonlinear_arith);
        assert(s.last() == digit_char(n % 10));
        assert(digits_value(s) == digits_value(d) * 10 + (n % 10));
        assert forall|i: int| 0 <= i < s.len() implies '\0' <= #[trigger] s[i] <= '\u{7f}' by {
            assert(is_digit(s[i]));
        }
    } else {
        lemma_digit_char(n);
        let s = dec_chars(n);
        assert(s.drop_last() =~= Seq::<char>::empty());
        assert(digits_value(s) == digits_value(s.drop_last()) * 10 + (s.last() as u32 - '0' as u32) as nat);
    }
    let s = dec_chars(n);
    assert(s[0] != '+') by {
        assert(is_digit(s[0]));
    }
}

/// The decimal digits of `n`, as `usize::to_string` writes them.
pub fn decimal_chars(n: usize) -> (r: Vec<char>)
    ensures
        r@ == dec_chars(n as nat),
    decreases n,
{
    if n < 10 {
        let c = char_of_digit(n as u32);
        let mut v: Vec<char> = Vec::new();
        v.push(c);
        assert(v@ =~= seq![digit_char(n as nat)]);
        v
    } else {
        let mut v = decimal_chars(n / 10);
        let c = char_of_digit((n % 10) as u32);
        v.push(c);
        v
    }
}

/// The character of one decimal digit.
fn char_of_digit(d: u32) -> (c: char)
    requires
        d < 10,
    ensures
        c == digit_char(d as nat),
{
    if d == 0 {
        '0'
    } else if d == 1 {
        '1'
    } else if d == 2 {
        '2'
    } else if d == 3 {
        '3'
    } else if d == 4 {
        '4'
    } else if d == 5 {
        '5'
    } else if d == 6 {
        '6'
    } else if d == 7 {
        '7'
    } else if d == 8 {
        '8'
    } else {
        '9'
    }
}

// ---- writing lines ----------------------------------------------------------

/// The lines `ls`, each followed by a newline byte.
pub open spec fn join_lines(ls: Seq<Seq<u8>>) -> Seq<u8>
    decreases ls.len(),
{
    if ls.len() == 0 {
        Seq::empty()
    } else {
        ls[0] + seq![10u8] + join_lines(ls.drop_first())
    }
}

/// A line that reads back as written: it holds no newline byte and does not
/// end in a carriage return.
pub open spec fn plain_line(l: Seq<u8>) -> bool {
    &&& forall|j: int| 0 <= j < l.len() ==> #[trigger] l[j] != 10u8
    &&& (l.len() > 0 ==> l.last() != 13u8)
}

/// Text that encodes to a plain line: no `\n`, and no `\r` at the end.
pub open spec fn plain_text(s: Seq<char>) -> bool {
    &&& forall|j: int| 0 <= j < s.len() ==> #[trigger] s[j] != '\n'
    &&& (s.len() > 0 ==> s.last() != '\r')
}

pub proof fn lemma_join_lines_push(ls: Seq<Seq<u8>>, l: Seq<u8>)
    ensures
        join_lines(ls.push(l)) == join_lines(ls) + l + seq![10u8],
    decreases ls.len(),
{
    if ls.len() == 0 {
        let single = ls.push(l);
        assert(single.drop_first() =~= Seq::<Seq<u8>>::empty());
        assert(join_lines(single.drop_first()) =~= Seq::<u8>::empty());
        assert(single[0] == l);
        assert(join_lines(ls) =~= Seq::<u8>::empty());
        assert(join_lines(single) =~= l + seq![10u8]);
    } else {
        lemma_join_lines_push(ls.drop_first(), l);
        assert(ls.push(l).drop_first() =~= ls.drop_first().push(l));
        assert(join_lines(ls.push(l)) =~= join_lines(ls) + l + seq![10u8]);
    }
}

/// Cutting joined plain lines at their newlines gives the lines back.
pub proof fn lemma_lines_of_join(ls: Seq<Seq<u8>>)
    requires
        forall|i: int| 0 <= i < ls.len() ==> plain_line(#[trigger] ls[i]),
    ensures
        lines_of(join_lines(ls), 10u8, 13u8) == ls,
    decreases ls.len(),
{
    if ls.len() > 0 {
        let l = ls[0];
        let rest = join_lines(ls.drop_first());
        let s = join_lines(ls);
        assert(s == l + seq![10u8] + rest);
        assert(plain_line(l));
        lemma_first_index_at(s, 10u8, l.len() as int);
        assert(s.subrange(0, l.len() as int) =~= l);
        assert(s.subrange(l.len() as int + 1, s.len() as int) =~= rest);
        assert forall|i: int| 0 <= i < ls.drop_first().len() implies plain_line(
            #[trigger] ls.drop_first()[i],
        ) by {
            assert(plain_line(ls[i + 1]));
        }
        lemma_lines_of_join(ls.drop_first());
        assert(strip_last(l, 13u8) == l);
        assert(lines_of(s, 10u8, 13u8) =~= seq![l] + ls.drop_first());
        assert(seq![l] + ls.drop_first() =~= ls);
    }
}

/// Encoding distributes over concatenation.
pub proof fn lemma_encode_concat(a: Seq<char>, b: Seq<char>)
    ensures
        encode_utf8(a + b) == encode_utf8(a) + encode_utf8(b),
    decreases a.len(),
{
    if a.len() == 0 {
        assert(a + b =~= b);
    } else {
        lemma_encode_concat(a.drop_first(), b);
        assert((a + b).drop_first() =~= a.drop_first() + b);
        assert((a + b)[0] == a[0]);
    }
}

/// An ASCII scalar encodes as its own byte; every other scalar encodes as
/// bytes of `0x80` or more.
proof fn lemma_scalar_bytes(c: char)
    ensures
        (c as u32) < 0x80 ==> encode_scalar(c as u32) == seq![(c as u32) as u8],
        (c as u32) >= 0x80 ==> forall|j: int|
            0 <= j < encode_scalar(c as u32).len() ==> #[trigger] encode_scalar(c as u32)[j] >= 0x80,
{
    let v = c as u32;
    if v < 0x80 {
        assert(((v & 0x7F) as u8) == (v as u8)) by (bit_vector)
            requires
                v < 0x80,
        ;
    } else {
        assert(forall|x: u8| #[trigger] (0x80u8 | x) >= 0x80u8) by (bit_vector);
        assert(forall|x: u8| #[trigger] (0xC0u8 | x) >= 0x80u8) by (bit_vector);
        assert(forall|x: u8| #[trigger] (0xE0u8 | x) >= 0x80u8) by (bit_vector);
        assert(forall|x: u8| #[trigger] (0xF0u8 | x) >= 0x80u8) by (bit_vector);
    }
}

/// Two characters with one code are one character.
proof fn lemma_char_code(c: char, d: char, code: u32)
    requires
        d as u32 == code,
        c != d,
    ensures
        c as u32 != code,
{
    if c as u32 == code {
        vstd::utf8::char_u32_cast(c, code);
        vstd::utf8::char_u32_cast(d, code);
    }
}

/// Plain text encodes to a plain line.
pub proof fn lemma_plain_text_encodes_plain(s: Seq<char>)
    requires
        plain_text(s),
    ensures
        plain_line(encode_utf8(s)),
    decreases s.len(),
{
    if s.len() > 0 {
        let rest = s.drop_first();
        assert(plain_text(rest) || rest.len() == 0) by {
            assert forall|j: int| 0 <= j < rest.len() implies #[trigger] rest[j] != '\n' by {
                assert(rest[j] == s[j + 1]);
            }
            if rest.len() > 0 {
                assert(rest.last() == s.last());
            }
        }
        let head = encode_scalar(s[0] as u32);
        lemma_scalar_bytes(s[0]);
        if rest.len() > 0 {
            lemma_plain_text_encodes_plain(rest);
        }
        let e = encode_utf8(s);
        assert(e == head + encode_utf8(rest));
        assert(s[0] != '\n');
        assert forall|j: int| 0 <= j < e.len() implies #[trigger] e[j] != 10u8 by {
            if j < head.len() {
                assert(e[j] == head[j]);
                if (s[0] as u32) < 0x80 {
                    assert(head[j] == (s[0] as u32) as u8);
                    lemma_char_code(s[0], '\n', 10);
                }
            } else {
                assert(e[j] == encode_utf8(rest)[j - head.len()]);
            }
        }
        if rest.len() == 0 {
            assert(encode_utf8(rest).len() == 0);
            assert(e =~= head);
            assert(s.last() == s[0]);
            if (s[0] as u32) < 0x80 {
                lemma_char_code(s[0], '\r', 13);
            } else {
                assert(head[head.len() - 1] >= 0x80);
            }
        } else {
            assert(encode_utf8(rest).len() > 0) by {
                lemma_scalar_bytes(rest[0]);
                assert(encode_utf8(rest) == encode_scalar(rest[0] as u32) + encode_utf8(rest.drop_first()));
                assert(encode_scalar(rest[0] as u32).len() > 0);
            }
            assert(e.last() == encode_utf8(rest).last());
        }
    }
}

/// Appends `line` and a newline byte to `out`.
pub fn push_line(out: &mut Vec<u8>, line: &[u8])
    ensures
        final(out)@ == old(out)@ + line@ + seq![10u8],
{
    let mut i: usize = 0;
    while i < line.len()
        invariant
            i <= line@.len(),
            out@ == old(out)@ + line@.subrange(0, i as int),
        decreases line@.len() - i,
    {
        out.push(line[i]);
        assert(line@.subrange(0, i + 1) =~= line@.subrange(0, i as int).push(line@[i as int]));
        i = i + 1;
    }
    assert(line@.subrange(0, line@.len() as int) =~= line@);
    out.push(10u8);
}

/// The UTF-8 bytes of ASCII characters.
pub fn ascii_bytes(chars: &[char]) -> (r: Vec<u8>)
    requires
        is_ascii_chars(chars@),
    ensures
        r@ == encode_utf8(chars@),
{
    proof {
        vstd::utf8::is_ascii_chars_encode_utf8(chars@);
    }
    let mut out: Vec<u8> = Vec::new();
    let mut i: usize = 0;
    while i < chars.len()
        invariant
            is_ascii_chars(chars@),
            chars@.len() == encode_utf8(chars@).len(),
            forall|k: int| 0 <= k < chars@.len() ==> chars@[k] as u8 == #[trigger] encode_utf8(chars@)[k],
            i <= chars@.len(),
            out@ == encode_utf8(chars@).subrange(0, i as int),
        decreases chars@.len() - i,
    {
        let c = chars[i];
        let b = (c as u32) as u8;
        assert('\0' <= chars@[i as int] <= '\u{7f}');
        assert(b == chars@[i as int] as u8);
        out.push(b);
        assert(encode_utf8(chars@).subrange(0, i + 1) =~= encode_utf8(chars@).subrange(0, i as int).push(
            encode_utf8(chars@)[i as int],
        ));
        i = i + 1;
    }
    assert(encode_utf8(chars@).subrange(0, chars@.len() as int) =~= encode_utf8(chars@));
    out
}

// ---- strings ---------------------------------------------------------------

/// `str::from_utf8`, with the characters of a valid string collected.
#[verifier::external_body]
pub(crate) fn utf8_chars(bytes: &[u8]) -> (r: Option<Vec<char>>)
    ensures
        match r {
            Some(v) => valid_utf8(bytes@) && v@ == decode_utf8(bytes@),
            None => !valid_utf8(bytes@),
        },
{
    match std::str::from_utf8(bytes) {
        Ok(text) => Some(text.chars().collect()),
        Err(_) => None,
    }
}

/// `String::from_iter` over characters.
#[verifier::external_body]
pub(crate) fn chars_to_string(cs: &[char]) -> (r: String)
    ensures
        r@ == cs@,
{
    cs.iter().collect()
}

/// The error `BufRead::read_line` reports for a line that is not valid
/// UTF-8 and holds no newline, so that it is read whole; its documentation
/// promises the error.
#[verifier::external_body]
pub(crate) fn invalid_line_error(line: &[u8]) -> (r: std::io::Error)
    requires
        !valid_utf8(line@),
        forall|j: int| 0 <= j < line@.len() ==> line@[j] != 10u8,
{
    let mut text = String::new();
    (&mut &line[..]).read_line(&mut text).unwrap_err()
}

} // verus!
