use vstd::prelude::*;

verus! {

/// True of the ten decimal digit characters.
pub open spec fn is_digit_char(c: char) -> bool {
    '0' as int <= c as int && c as int <= '9' as int
}

/// The numeric value of one decimal digit character.
pub open spec fn digit_val(c: char) -> int {
    c as int - '0' as int
}

/// True when s is nonempty and every character is a decimal digit.
pub open spec fn all_digits(s: Seq<char>) -> bool {
    s.len() > 0 && forall|i: int| 0 <= i < s.len() ==> is_digit_char(#[trigger] s[i])
}

/// The numeric value of a digit string, most significant digit first.
pub open spec fn digits_val(s: Seq<char>) -> int
    decreases s.len(),
{
    if s.len() == 0 {
        0
    } else {
        digits_val(s.drop_last()) * 10 + digit_val(s.last())
    }
}

/// A number token with an optional leading plus sign removed; this is the
/// shape str::parse accepts for unsigned integers.
pub open spec fn num_body(s: Seq<char>) -> Seq<char> {
    if s.len() > 0 && s[0] == '+' {
        s.drop_first()
    } else {
        s
    }
}

/// True when s parses as an unsigned integer whose value is at most max.
pub open spec fn parses_to_max(s: Seq<char>, max: int) -> bool {
    all_digits(num_body(s)) && digits_val(num_body(s)) <= max
}

proof fn lemma_digits_val_nonneg(s: Seq<char>)
    requires
        forall|i: int| 0 <= i < s.len() ==> is_digit_char(#[trigger] s[i]),
    ensures
        digits_val(s) >= 0,
    decreases s.len(),
{
    if s.len() > 0 {
        lemma_digits_val_nonneg(s.drop_last());
    }
}

/// A prefix of a digit string never has a larger value than the whole.
proof fn lemma_digits_val_take(s: Seq<char>, k: int)
    requires
        0 <= k <= s.len(),
        forall|i: int| 0 <= i < s.len() ==> is_digit_char(#[trigger] s[i]),
    ensures
        digits_val(s.take(k)) <= digits_val(s),
    decreases s.len(),
{
    if k == s.len() {
        assert(s.take(k) =~= s);
    } else {
        assert(s.drop_last().take(k) =~= s.take(k));
        lemma_digits_val_take(s.drop_last(), k);
        lemma_digits_val_nonneg(s.drop_last());
    }
}

/// Parses a decimal unsigned integer as str::parse::<u64> does: an optional
/// leading plus sign, then one or more digits, with the value fitting in u64.
pub fn parse_u64(s: &str) -> (r: Option<u64>)
    ensures
        r is Some <==> parses_to_max(s@, u64::MAX as int),
        r is Some ==> r->0 == digits_val(num_body(s@)),
{
    let n: usize = s.unicode_len();
    let start: usize = if n > 0 && s.get_char(0) == '+' {
        1
    } else {
        0
    };
    if start >= n {
        assert(num_body(s@).len() == 0);
        return None;
    }
    let ghost body: Seq<char> = num_body(s@);
    assert(body =~= s@.subrange(start as int, n as int));
    let mut acc: u128 = 0;
    let mut i: usize = start;
    while i < n
        invariant
            start <= i <= n,
            n == s@.len(),
            start < n,
            body == num_body(s@),
            body =~= s@.subrange(start as int, n as int),
            forall|j: int| start <= j < i ==> is_digit_char(#[trigger] s@[j]),
            acc <= u64::MAX as u128,
            acc as int == digits_val(s@.subrange(start as int, i as int)),
        decreases n - i,
    {
        let c: char = s.get_char(i);
        let u: u32 = c as u32;
        if u < 48 || u > 57 {
            assert(!is_digit_char(s@[i as int]));
            assert(!all_digits(body)) by {
                assert(body[i - start] == s@[i as int]);
            }
            return None;
        }
        let d: u128 = (u - 48) as u128;
        assert(is_digit_char(s@[i as int]));
        assert(d as int == digit_val(s@[i as int]));
        let acc2: u128 = acc * 10 + d;
        let ghost pre: Seq<char> = s@.subrange(start as int, i as int);
        let ghost cur: Seq<char> = s@.subrange(start as int, i + 1 as int);
        assert(cur.drop_last() =~= pre);
        assert(cur.last() == s@[i as int]);
        assert(acc2 as int == digits_val(cur));
        if acc2 > u64::MAX as u128 {
            assert(!parses_to_max(s@, u64::MAX as int)) by {
                if all_digits(body) {
                    assert(body.take(i + 1 - start) =~= cur);
                    lemma_digits_val_take(body, i + 1 - start);
                }
            }
            return None;
        }
        acc = acc2;
        i = i + 1;
    }
    assert(s@.subrange(start as int, n as int) =~= body);
    assert(all_digits(body));
    Some(acc as u64)
}

/// Parses a decimal unsigned integer as str::parse::<u8> does.
pub fn parse_u8(s: &str) -> (r: Option<u8>)
    ensures
        r is Some <==> parses_to_max(s@, 255),
        r is Some ==> r->0 == digits_val(num_body(s@)),
{
    match parse_u64(s) {
        Some(v) => {
            if v <= 255 {
                Some(v as u8)
            } else {
                proof {
                    if all_digits(num_body(s@)) {
                        lemma_digits_val_nonneg(num_body(s@));
                    }
                }
                None
            }
        },
        None => {
            proof {
                if parses_to_max(s@, 255) {
                    assert(digits_val(num_body(s@)) <= u64::MAX as int);
                }
            }
            None
        },
    }
}

/// The character for digit d, 0 through 15; hex digits are lower case.
pub open spec fn digit_char(d: int) -> char {
    if d == 0 { '0' }
    else if d == 1 { '1' }
    else if d == 2 { '2' }
    else if d == 3 { '3' }
    else if d == 4 { '4' }
    else if d == 5 { '5' }
    else if d == 6 { '6' }
    else if d == 7 { '7' }
    else if d == 8 { '8' }
    else if d == 9 { '9' }
    else if d == 10 { 'a' }
    else if d == 11 { 'b' }
    else if d == 12 { 'c' }
    else if d == 13 { 'd' }
    else if d == 14 { 'e' }
    else { 'f' }
}

fn digit_str(d: u8) -> (s: &'static str)
    requires
        d < 16,
    ensures
        s@ == seq![digit_char(d as int)],
{
    proof {
        reveal_strlit("0");
        reveal_strlit("1");
        reveal_strlit("2");
        reveal_strlit("3");
        reveal_strlit("4");
        reveal_strlit("5");
        reveal_strlit("6");
        reveal_strlit("7");
        reveal_strlit("8");
        reveal_strlit("9");
        reveal_strlit("a");
        reveal_strlit("b");
        reveal_strlit("c");
        reveal_strlit("d");
        reveal_strlit("e");
        reveal_strlit("f");
    }
    let s: &'static str = if d == 0 { "0" }
    else if d == 1 { "1" }
    else if d == 2 { "2" }
    else if d == 3 { "3" }
    else if d == 4 { "4" }
    else if d == 5 { "5" }
    else if d == 6 { "6" }
    else if d == 7 { "7" }
    else if d == 8 { "8" }
    else if d == 9 { "9" }
    else if d == 10 { "a" }
    else if d == 11 { "b" }
    else if d == 12 { "c" }
    else if d == 13 { "d" }
    else if d == 14 { "e" }
    else { "f" };
    proof {
        assert(s@ =~= seq![digit_char(d as int)]);
    }
    s
}

/// The decimal rendering of n, most significant digit first, no sign and
/// no leading zeros (a single zero for n == 0).
pub open spec fn spec_dec(n: nat) -> Seq<char>
    decreases n,
{
    if n < 10 {
        seq![digit_char(n as int)]
    } else {
        spec_dec(n / 10).push(digit_char((n % 10) as int))
    }
}

/// Appends the decimal rendering of n to out.
pub fn push_dec_u64(out: &mut String, n: u64)
    ensures
        final(out)@ == old(out)@ + spec_dec(n as nat),
    decreases n,
{
    if n < 10 {
        out.append(digit_str(n as u8));
        assert(old(out)@ + seq![digit_char(n as int)] =~= final(out)@);
    } else {
        push_dec_u64(out, n / 10);
        out.append(digit_str((n % 10) as u8));
        assert(old(out)@ + spec_dec(n as nat) =~= final(out)@);
    }
}

/// The lower-case hex rendering of a byte sequence, two digits per byte.
pub open spec fn spec_hex(bytes: Seq<u8>) -> Seq<char>
    decreases bytes.len(),
{
    if bytes.len() == 0 {
        Seq::empty()
    } else {
        spec_hex(bytes.drop_last()) + seq![
            digit_char(bytes.last() as int / 16),
            digit_char(bytes.last() as int % 16),
        ]
    }
}

/// Appends the hex rendering of a 32-byte digest to out.
pub fn push_hex32(out: &mut String, bytes: &[u8; 32])
    ensures
        final(out)@ == old(out)@ + spec_hex(bytes@),
{
    let mut i: usize = 0;
    while i < 32
        invariant
            i <= 32,
            out@ == old(out)@ + spec_hex(bytes@.take(i as int)),
        decreases 32 - i,
    {
        let b: u8 = bytes[i];
        out.append(digit_str(b / 16));
        out.append(digit_str(b % 16));
        proof {
            let ghost cur: Seq<u8> = bytes@.take(i + 1 as int);
            assert(cur.drop_last() =~= bytes@.take(i as int));
            assert(cur.last() == bytes@[i as int]);
            assert(out@ =~= old(out)@ + spec_hex(cur));
        }
        i = i + 1;
    }
    proof {
        assert(bytes@.take(32) =~= bytes@);
    }
}

} // verus!
