use vstd::prelude::*;

verus! {

/// One decimal digit as a character.
pub open spec fn digit_char(d: int) -> char {
    if d == 0 {
        '0'
    } else if d == 1 {
        '1'
    } else if d == 2 {
        '2'
    } else if d == 3 {
        '3'
    } else if d == 4 {
        '4'
    } else if d == 5 {
        '5'
    } else if d == 6 {
        '6'
    } else if d == 7 {
        '7'
    } else if d == 8 {
        '8'
    } else {
        '9'
    }
}

/// Decimal representation of a non-negative integer, most significant digit first.
pub open spec fn dec_spec(n: int) -> Seq<char>
    decreases n,
{
    if n < 10 {
        seq![digit_char(n)]
    } else {
        dec_spec(n / 10).push(digit_char(n % 10))
    }
}

/// The digit `d` as a one-character string slice.
fn digit_str(d: u64) -> (r: &'static str)
    requires
        d < 10,
    ensures
        r@ == seq![digit_char(d as int)],
{
    proof {
        reveal_strlit("0");
        reveal_strlit("1");
        reveal_strlit("2");
        reveal_strlit("3");
        reveal_strlit("4");
        reveal_strlit("5");
        reveal_strlit("6");
        reveal_strlit("7");
        reveal_strlit("8");
        reveal_strlit("9");
    }
    let r = match d {
        0 => "0",
        1 => "1",
        2 => "2",
        3 => "3",
        4 => "4",
        5 => "5",
        6 => "6",
        7 => "7",
        8 => "8",
        _ => "9",
    };
    proof {
        assert(r@ =~= seq![digit_char(d as int)]);
    }
    r
}

/// Renders `n` in decimal.
pub fn dec_u64(n: u64) -> (r: String)
    ensures
        r@ == dec_spec(n as int),
    decreases n,
{
    if n < 10 {
        String::from_str(digit_str(n))
    } else {
        let mut s = dec_u64(n / 10);
        s.append(digit_str(n % 10));
        proof {
            assert(s@ =~= dec_spec(n as int));
        }
        s
    }
}

/// Renders `n` in decimal.
pub fn dec_u128(n: u128) -> (r: String)
    ensures
        r@ == dec_spec(n as int),
    decreases n,
{
    if n < 10 {
        String::from_str(digit_str(n as u64))
    } else {
        let mut s = dec_u128(n / 10);
        s.append(digit_str((n % 10) as u64));
        proof {
            assert(s@ =~= dec_spec(n as int));
        }
        s
    }
}

/// How one character is escaped for the JSON reports: backslash and
/// double-quote gain a leading backslash, everything else is kept.
pub open spec fn esc_char(c: char) -> Seq<char> {
    if c == '\\' {
        seq!['\\', '\\']
    } else if c == '"' {
        seq!['\\', '"']
    } else {
        seq![c]
    }
}

/// A string with backslash and double-quote escaped.
pub open spec fn esc_spec(s: Seq<char>) -> Seq<char>
    decreases s.len(),
{
    if s.len() == 0 {
        Seq::empty()
    } else {
        esc_char(s[0]) + esc_spec(s.drop_first())
    }
}

/// Escapes backslash and double-quote, leaving all other characters as they
/// are.
pub fn esc(s: &str) -> (r: String)
    ensures
        r@ == esc_spec(s@),
{
    let n = s.unicode_len();
    let mut out = String::new();
    let mut i: usize = 0;
    proof {
        assert(s@.subrange(0, n as int) =~= s@);
        assert(out@ + esc_spec(s@) =~= esc_spec(s@));
    }
    while i < n
        invariant
            n == s@.len(),
            i <= n,
            esc_spec(s@) == out@ + esc_spec(s@.subrange(i as int, n as int)),
        decreases n - i,
    {
        let c = s.get_char(i);
        proof {
            assert(s@.subrange(i as int, n as int)[0] == c);
            assert(s@.subrange(i as int, n as int).drop_first() =~= s@.subrange(
                i as int + 1,
                n as int,
            ));
        }
        if c == '\\' {
            out.append("\\\\");
            proof {
                reveal_strlit("\\\\");
                assert("\\\\"@ =~= esc_char(c));
            }
        } else if c == '"' {
            out.append("\\\"");
            proof {
                reveal_strlit("\\\"");
                assert("\\\""@ =~= esc_char(c));
            }
        } else {
            let piece = s.substring_char(i, i + 1);
            out.append(piece);
            proof {
                assert(piece@ =~= esc_char(c));
            }
        }
        i = i + 1;
    }
    proof {
        assert(s@.subrange(n as int, n as int) =~= Seq::<char>::empty());
        assert(out@ =~= esc_spec(s@));
    }
    out
}

/// A value in hundredths rendered with exactly two digits after the point,
/// the way the reports print derived metrics.
pub open spec fn centi_spec(c: int) -> Seq<char> {
    dec_spec(c / 100) + seq!['.'] + seq![digit_char((c / 10) % 10), digit_char(c % 10)]
}

/// Renders a value held in hundredths with two digits after the point.
pub fn centi_string(c: u128) -> (r: String)
    ensures
        r@ == centi_spec(c as int),
{
    let mut s = dec_u128(c / 100);
    s.append(".");
    s.append(digit_str(((c / 10) % 10) as u64));
    s.append(digit_str((c % 10) as u64));
    proof {
        reveal_strlit(".");
        assert(s@ =~= centi_spec(c as int));
    }
    s
}

/// True for an ASCII decimal digit.
pub open spec fn is_digit(c: char) -> bool {
    '0' as u32 <= c as u32 && c as u32 <= '9' as u32
}

pub open spec fn all_digits(s: Seq<char>) -> bool {
    forall|i: int| 0 <= i < s.len() ==> is_digit(s[i])
}

/// The number a digit string denotes, most significant digit first.
pub open spec fn digits_val(s: Seq<char>) -> int
    decreases s.len(),
{
    if s.len() == 0 {
        0
    } else {
        digits_val(s.drop_last()) * 10 + (s.last() as u32 - '0' as u32)
    }
}

proof fn lemma_digits_val_nonneg(s: Seq<char>)
    requires
        all_digits(s),
    ensures
        digits_val(s) >= 0,
    decreases s.len(),
{
    if s.len() > 0 {
        assert(all_digits(s.drop_last()));
        lemma_digits_val_nonneg(s.drop_last());
    }
}

/// More digits never shrink the value a digit string denotes.
proof fn lemma_digits_val_grows(s: Seq<char>, k: int)
    requires
        all_digits(s),
        0 <= k <= s.len(),
    ensures
        digits_val(s) >= digits_val(s.subrange(0, k)),
    decreases s.len() - k,
{
    if k == s.len() {
        assert(s.subrange(0, k) =~= s);
    } else {
        assert(s.subrange(0, s.len() as int) =~= s);
        lemma_digits_val_grows(s, k + 1);
        let p = s.subrange(0, k + 1);
        assert(p.drop_last() =~= s.subrange(0, k));
        lemma_digits_val_nonneg(s.subrange(0, k));
    }
}

/// What `str::parse` to an unsigned 64-bit integer returns: an optional
/// leading plus sign, then at least one decimal digit, and the value in
/// range; anything else is rejected.
pub open spec fn parse_u64_spec(s: Seq<char>) -> Option<u64> {
    let body = if s.len() > 0 && s[0] == '+' {
        s.drop_first()
    } else {
        s
    };
    if body.len() > 0 && all_digits(body) && digits_val(body) <= u64::MAX {
        Some(digits_val(body) as u64)
    } else {
        None
    }
}

/// Parses a decimal unsigned 64-bit integer the way `str::parse` does.
pub fn parse_u64(s: &str) -> (r: Option<u64>)
    ensures
        r == parse_u64_spec(s@),
{
    let n = s.unicode_len();
    if n == 0 {
        return None;
    }
    let start: usize = if s.get_char(0) == '+' {
        1
    } else {
        0
    };
    let ghost body = if s@[0] == '+' {
        s@.drop_first()
    } else {
        s@
    };
    proof {
        assert(body =~= s@.subrange(start as int, n as int));
    }
    if start == n {
        return None;
    }
    let mut acc: u64 = 0;
    let mut i: usize = start;
    proof {
        assert(body.subrange(0, 0) =~= Seq::<char>::empty());
    }
    while i < n
        invariant
            n == s@.len(),
            start <= i <= n,
            body == (if s@.len() > 0 && s@[0] == '+' {
                s@.drop_first()
            } else {
                s@
            }),
            body == s@.subrange(start as int, n as int),
            all_digits(body.subrange(0, i - start)),
            acc as int == digits_val(body.subrange(0, i - start)),
        decreases n - i,
    {
        let c = s.get_char(i);
        let cu = c as u32;
        proof {
            assert(body[i - start] == c);
        }
        if cu < 48 || cu > 57 {
            proof {
                assert('0' as u32 == 48 && '9' as u32 == 57);
                assert(!is_digit(body[i - start]));
                assert(!all_digits(body));
            }
            return None;
        }
        let d = (cu - 48) as u64;
        let ghost pre = body.subrange(0, i - start);
        let ghost pre1 = body.subrange(0, i + 1 - start);
        proof {
            assert('0' as u32 == 48 && '9' as u32 == 57);
            assert(pre1.drop_last() =~= pre);
            assert(pre1.last() == c);
            assert(digits_val(pre1) == digits_val(pre) * 10 + d);
        }
        let m = acc.checked_mul(10);
        if m.is_none() {
            proof {
                if all_digits(body) {
                    lemma_digits_val_grows(body, i + 1 - start);
                    assert(digits_val(body) > u64::MAX);
                }
            }
            return None;
        }
        let a = m.unwrap().checked_add(d);
        if a.is_none() {
            proof {
                if all_digits(body) {
                    lemma_digits_val_grows(body, i + 1 - start);
                    assert(digits_val(body) > u64::MAX);
                }
            }
            return None;
        }
        acc = a.unwrap();
        i = i + 1;
    }
    proof {
        assert(body.subrange(0, n - start) =~= body);
    }
    Some(acc)
}

/// Parses a decimal `usize` the way `str::parse` does.
pub open spec fn parse_usize_spec(s: Seq<char>) -> Option<usize> {
    match parse_u64_spec(s) {
        Some(v) => if v <= usize::MAX as u64 {
            Some(v as usize)
        } else {
            None
        },
        None => None,
    }
}

pub fn parse_usize(s: &str) -> (r: Option<usize>)
    ensures
        r == parse_usize_spec(s@),
{
    match parse_u64(s) {
        Some(v) => if v <= usize::MAX as u64 {
            Some(v as usize)
        } else {
            None
        },
        None => None,
    }
}

/// ASCII whitespace, the field separator the kernel's meminfo uses.
pub open spec fn is_ws(c: char) -> bool {
    c == ' ' || c == '\t' || c == '\n' || c == '\r' || c == '\x0b' || c == '\x0c'
}

/// Index of the next line break at or after `i`, or the end of the text.
pub open spec fn line_end(s: Seq<char>, i: int) -> int
    decreases s.len() - i,
{
    if i < 0 || i >= s.len() {
        s.len() as int
    } else if s[i] == '\n' {
        i
    } else {
        line_end(s, i + 1)
    }
}

/// A line as the line iterator yields it: without a trailing carriage
/// return.
pub open spec fn strip_cr(l: Seq<char>) -> Seq<char> {
    if l.len() > 0 && l.last() == '\r' {
        l.drop_last()
    } else {
        l
    }
}

/// First index at or after `i` holding a non-whitespace character.
pub open spec fn skip_ws(r: Seq<char>, i: int) -> int
    decreases r.len() - i,
{
    if i < 0 || i >= r.len() {
        r.len() as int
    } else if is_ws(r[i]) {
        skip_ws(r, i + 1)
    } else {
        i
    }
}

/// First index at or after `i` holding a whitespace character.
pub open spec fn token_end(r: Seq<char>, i: int) -> int
    decreases r.len() - i,
{
    if i < 0 || i >= r.len() {
        r.len() as int
    } else if is_ws(r[i]) {
        i
    } else {
        token_end(r, i + 1)
    }
}

/// The number in a meminfo value field: its first whitespace-separated
/// token read as a decimal, or zero when the token is missing or
/// malformed.
pub open spec fn mem_val(r: Seq<char>) -> int {
    let a = skip_ws(r, 0);
    let b = token_end(r, a);
    let tok = r.subrange(a, b);
    if tok.len() == 0 {
        0
    } else {
        match parse_u64_spec(tok) {
            Some(v) => v as int,
            None => 0,
        }
    }
}

/// A line never ends before it starts and never after the text does.
pub proof fn lemma_line_end_bounds(s: Seq<char>, i: int)
    ensures
        i <= s.len() ==> i <= line_end(s, i),
        line_end(s, i) <= s.len(),
    decreases s.len() - i,
{
    if 0 <= i < s.len() && s[i] != '\n' {
        lemma_line_end_bounds(s, i + 1);
    }
}

/// Total memory in megabytes read from the text of meminfo, scanning the
/// lines from position `i` on: the first line carrying the total-memory
/// field decides, and a text without one reads as zero.
pub open spec fn meminfo_from(s: Seq<char>, i: int) -> int
    decreases s.len() + 1 - i,
    via meminfo_from_decreases
{
    if i < 0 || i >= s.len() {
        0
    } else {
        let j = line_end(s, i);
        let line = strip_cr(s.subrange(i, j));
        if line.len() >= 9 && line.subrange(0, 9) == "MemTotal:"@ {
            mem_val(line.subrange(9, line.len() as int)) / 1024
        } else {
            meminfo_from(s, j + 1)
        }
    }
}

#[via_fn]
proof fn meminfo_from_decreases(s: Seq<char>, i: int) {
    lemma_line_end_bounds(s, i);
}

fn ws_char(c: char) -> (r: bool)
    ensures
        r == is_ws(c),
{
    c == ' ' || c == '\t' || c == '\n' || c == '\r' || c == '\x0b' || c == '\x0c'
}

/// Reads the total-memory figure out of the text of meminfo: the first
/// `MemTotal:` line's first field, in kilobytes, reported in megabytes.
pub fn meminfo_mb(s: &str) -> (r: u64)
    ensures
        r as int == meminfo_from(s@, 0),
{
    let n = s.unicode_len();
    let mut i: usize = 0;
    while i < n
        invariant
            n == s@.len(),
            0 <= i <= n,
            meminfo_from(s@, 0) == meminfo_from(s@, i as int),
        decreases n - i,
    {
        let mut j: usize = i;
        while j < n && s.get_char(j) != '\n'
            invariant
                n == s@.len(),
                i <= j <= n,
                line_end(s@, i as int) == line_end(s@, j as int),
            decreases n - j,
        {
            j = j + 1;
        }
        proof {
            assert(line_end(s@, j as int) == j);
        }
        let has_cr = j > i && s.get_char(j - 1) == '\r';
        let stripped_end = if has_cr {
            j - 1
        } else {
            j
        };
        let ghost line = strip_cr(s@.subrange(i as int, j as int));
        proof {
            assert(line =~= s@.subrange(i as int, stripped_end as int));
            if line.len() >= 9 {
                assert(line.subrange(0, 9) =~= s@.subrange(i as int, i + 9));
            }
        }
        if stripped_end - i >= 9 && str_eq(s.substring_char(i, i + 9), "MemTotal:") {
            let rest = s.substring_char(i + 9, stripped_end);
            proof {
                assert(rest@ =~= line.subrange(9, line.len() as int));
            }
            let rn = rest.unicode_len();
            let mut a: usize = 0;
            while a < rn && ws_char(rest.get_char(a))
                invariant
                    rn == rest@.len(),
                    0 <= a <= rn,
                    skip_ws(rest@, 0) == skip_ws(rest@, a as int),
                decreases rn - a,
            {
                a = a + 1;
            }
            proof {
                assert(skip_ws(rest@, a as int) == a);
            }
            let mut b: usize = a;
            while b < rn && !ws_char(rest.get_char(b))
                invariant
                    rn == rest@.len(),
                    a <= b <= rn,
                    token_end(rest@, a as int) == token_end(rest@, b as int),
                decreases rn - b,
            {
                b = b + 1;
            }
            proof {
                assert(token_end(rest@, b as int) == b);
            }
            let tok = rest.substring_char(a, b);
            if tok.unicode_len() == 0 {
                return 0;
            }
            let v = match parse_u64(tok) {
                Some(v) => v,
                None => 0,
            };
            return v / 1024;
        }
        if j < n {
            i = j + 1;
        } else {
            proof {
                assert(meminfo_from(s@, j as int + 1) == 0);
                assert(meminfo_from(s@, n as int) == 0);
            }
            i = n;
        }
    }
    0
}

/// `base`, a slash, and `name`: how the scan composes a child's path.
pub fn join_path(base: &str, name: &str) -> (r: String)
    ensures
        r@ == base@ + seq!['/'] + name@,
{
    let mut s = String::from_str(base);
    s.append("/");
    s.append(name);
    proof {
        reveal_strlit("/");
        assert(s@ =~= base@ + seq!['/'] + name@);
    }
    s
}

/// True when the two string slices hold the same characters.
pub fn str_eq(a: &str, b: &str) -> (r: bool)
    ensures
        r == (a@ == b@),
{
    let na = a.unicode_len();
    let nb = b.unicode_len();
    if na != nb {
        return false;
    }
    let mut i: usize = 0;
    while i < na
        invariant
            na == a@.len(),
            na == b@.len(),
            i <= na,
            forall|j: int| 0 <= j < i ==> a@[j] == b@[j],
        decreases na - i,
    {
        if a.get_char(i) != b.get_char(i) {
            return false;
        }
        i = i + 1;
    }
    proof {
        assert(a@ =~= b@);
    }
    true
}

} // verus!
