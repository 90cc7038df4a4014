use vstd::prelude::*;

verus! {

/// The pieces of `s` between occurrences of `sep`, as `str::split` yields them:
/// always at least one piece, and one more than the number of separators.
pub open spec fn split(s: Seq<char>, sep: char) -> Seq<Seq<char>>
    decreases s.len(),
{
    if s.len() == 0 {
        seq![Seq::<char>::empty()]
    } else {
        let rest = split(s.drop_last(), sep);
        if s.last() == sep {
            rest.push(Seq::<char>::empty())
        } else {
            rest.update(rest.len() - 1, rest.last().push(s.last()))
        }
    }
}

pub open spec fn is_dec_digit(c: char) -> bool {
    '0' <= c && c <= '9'
}

pub open spec fn dec_digit_value(c: char) -> nat {
    (c as u32 - '0' as u32) as nat
}

pub open spec fn all_dec_digits(s: Seq<char>) -> bool {
    forall|i: int| 0 <= i < s.len() ==> is_dec_digit(#[trigger] s[i])
}

/// The number that a string of decimal digits denotes.
pub open spec fn dec_value(s: Seq<char>) -> nat
    decreases s.len(),
{
    if s.len() == 0 {
        0
    } else {
        dec_value(s.drop_last()) * 10 + dec_digit_value(s.last())
    }
}

pub open spec fn hex_digit_char(d: nat) -> char {
    seq!['0', '1', '2', '3', '4', '5', '6', '7', '8', '9', 'a', 'b', 'c', 'd', 'e', 'f'][d as int]
}

/// The Rust values of a sequence of character vectors.
pub open spec fn views(v: Seq<Vec<char>>) -> Seq<Seq<char>> {
    v.map_values(|x: Vec<char>| x@)
}

pub proof fn lemma_digit_char(d: nat)
    requires
        d < 16,
    ensures
        is_hex_digit(hex_digit_char(d)),
        hex_digit_value(hex_digit_char(d)) == d,
        d < 10 ==> is_dec_digit(hex_digit_char(d)),
        d < 10 ==> dec_digit_value(hex_digit_char(d)) == d,
        d == 0 <==> hex_digit_char(d) == '0',
        hex_digit_char(d) != '.' && hex_digit_char(d) != '/' && hex_digit_char(d) != ':',
{
    let t = seq!['0', '1', '2', '3', '4', '5', '6', '7', '8', '9', 'a', 'b', 'c', 'd', 'e', 'f'];
    assert(t[0] == '0' && t[1] == '1' && t[2] == '2' && t[3] == '3' && t[4] == '4');
    assert(t[5] == '5' && t[6] == '6' && t[7] == '7' && t[8] == '8' && t[9] == '9');
    assert(t[10] == 'a' && t[11] == 'b' && t[12] == 'c' && t[13] == 'd' && t[14] == 'e');
    assert(t[15] == 'f');
}

/// `n` in decimal, without leading zeros.
pub open spec fn dec_text(n: nat) -> Seq<char>
    decreases n,
{
    if n < 10 {
        seq![hex_digit_char(n)]
    } else {
        dec_text(n / 10).push(hex_digit_char(n % 10))
    }
}

pub open spec fn is_hex_digit(c: char) -> bool {
    ('0' <= c && c <= '9') || ('a' <= c && c <= 'f') || ('A' <= c && c <= 'F')
}

pub open spec fn hex_digit_value(c: char) -> nat {
    if '0' <= c && c <= '9' {
        (c as u32 - '0' as u32) as nat
    } else if 'a' <= c && c <= 'f' {
        (c as u32 - 'a' as u32 + 10) as nat
    } else {
        (c as u32 - 'A' as u32 + 10) as nat
    }
}

pub open spec fn all_hex_digits(s: Seq<char>) -> bool {
    forall|i: int| 0 <= i < s.len() ==> is_hex_digit(#[trigger] s[i])
}

/// The number that a string of hexadecimal digits denotes.
pub open spec fn hex_value(s: Seq<char>) -> nat
    decreases s.len(),
{
    if s.len() == 0 {
        0
    } else {
        hex_value(s.drop_last()) * 16 + hex_digit_value(s.last())
    }
}

/// `n` in lower-case hexadecimal, without leading zeros.
pub open spec fn hex_text(n: nat) -> Seq<char>
    decreases n,
{
    if n < 16 {
        seq![hex_digit_char(n)]
    } else {
        hex_text(n / 16).push(hex_digit_char(n % 16))
    }
}

pub proof fn lemma_split_nonempty(s: Seq<char>, sep: char)
    ensures
        split(s, sep).len() >= 1,
    decreases s.len(),
{
    if s.len() > 0 {
        lemma_split_nonempty(s.drop_last(), sep);
    }
}

/// A string without the separator is a single piece.
pub proof fn lemma_split_no_sep(s: Seq<char>, sep: char)
    requires
        !s.contains(sep),
    ensures
        split(s, sep) == seq![s],
    decreases s.len(),
{
    if s.len() == 0 {
        assert(s =~= Seq::<char>::empty());
    } else {
        assert(s.drop_last() =~= s.subrange(0, s.len() - 1));
        assert(!s.drop_last().contains(sep)) by {
            if s.drop_last().contains(sep) {
                let k = choose|k: int| 0 <= k < s.drop_last().len() && s.drop_last()[k] == sep;
                assert(s[k] == sep);
            }
        }
        lemma_split_no_sep(s.drop_last(), sep);
        assert(s[s.len() - 1] != sep);
        assert(s.drop_last().push(s.last()) =~= s);
        assert(split(s, sep) =~= seq![s]);
    }
}

/// Splitting at a separator splits the two sides independently.
pub proof fn lemma_split_join(a: Seq<char>, b: Seq<char>, sep: char)
    ensures
        split(a + seq![sep] + b, sep) == split(a, sep) + split(b, sep),
    decreases b.len(),
{
    let x = a + seq![sep] + b;
    if b.len() == 0 {
        assert(x.drop_last() =~= a);
        assert(split(a, sep) + split(b, sep) =~= split(a, sep).push(Seq::<char>::empty()));
    } else {
        assert(x.drop_last() =~= a + seq![sep] + b.drop_last());
        lemma_split_join(a, b.drop_last(), sep);
        lemma_split_nonempty(b.drop_last(), sep);
        lemma_split_nonempty(a, sep);
        let sa = split(a, sep);
        let sb = split(b.drop_last(), sep);
        if b.last() == sep {
            assert(split(x, sep) =~= sa + sb.push(Seq::<char>::empty()));
        } else {
            assert((sa + sb).update((sa + sb).len() - 1, (sa + sb).last().push(b.last())) =~= sa
                + sb.update(sb.len() - 1, sb.last().push(b.last())));
        }
    }
}

pub proof fn lemma_dec_text_digits(n: nat)
    ensures
        all_dec_digits(dec_text(n)),
        dec_value(dec_text(n)) == n,
        1 <= dec_text(n).len(),
        n < 10 ==> dec_text(n).len() == 1,
        10 <= n < 100 ==> dec_text(n).len() == 2,
        100 <= n < 1000 ==> dec_text(n).len() == 3,
        dec_text(n)[0] == '0' ==> n == 0,
        !dec_text(n).contains('.'),
        !dec_text(n).contains('/'),
        !dec_text(n).contains(':'),
    decreases n,
{
    lemma_digit_char(n % 10);
    if n < 10 {
        assert(dec_text(n).drop_last() =~= Seq::<char>::empty());
        assert(dec_value(dec_text(n)) == dec_value(Seq::<char>::empty()) * 10 + dec_digit_value(
            hex_digit_char(n),
        ));
    } else {
        assert(n / 10 * 10 + n % 10 == n);
        lemma_dec_text_digits(n / 10);
        let t = dec_text(n / 10);
        let c = hex_digit_char(n % 10);
        assert(t.push(c).drop_last() =~= t);
        assert(t.push(c).last() == c);
        assert(dec_value(t.push(c)) == dec_value(t) * 10 + dec_digit_value(c));
        assert(dec_value(t.push(c)) == n);
        assert(all_dec_digits(t.push(c))) by {
            assert forall|i: int| 0 <= i < t.push(c).len() implies is_dec_digit(
                #[trigger] t.push(c)[i],
            ) by {
                if i < t.len() {
                    assert(t.push(c)[i] == t[i]);
                }
            }
        }
        assert(!t.push(c).contains('.') && !t.push(c).contains('/') && !t.push(c).contains(':'))
            by {
            if t.push(c).contains('.') || t.push(c).contains('/') || t.push(c).contains(':') {
                let k = choose|k: int|
                    0 <= k < t.push(c).len() && (t.push(c)[k] == '.' || t.push(c)[k] == '/'
                        || t.push(c)[k] == ':');
                if k < t.len() {
                    assert(t[k] == t.push(c)[k]);
                }
            }
        }
    }
}

pub proof fn lemma_hex_text_digits(n: nat)
    ensures
        all_hex_digits(hex_text(n)),
        hex_value(hex_text(n)) == n,
        1 <= hex_text(n).len(),
        n < 16 ==> hex_text(n).len() == 1,
        n < 256 ==> hex_text(n).len() <= 2,
        n < 4096 ==> hex_text(n).len() <= 3,
        n < 65536 ==> hex_text(n).len() <= 4,
        !hex_text(n).contains(':'),
        !hex_text(n).contains('/'),
        !hex_text(n).contains('.'),
    decreases n,
{
    lemma_digit_char(n % 16);
    if n < 16 {
        assert(hex_text(n).drop_last() =~= Seq::<char>::empty());
        assert(hex_value(hex_text(n)) == hex_value(Seq::<char>::empty()) * 16 + hex_digit_value(
            hex_digit_char(n),
        ));
    } else {
        assert(n / 16 * 16 + n % 16 == n);
        lemma_hex_text_digits(n / 16);
        let t = hex_text(n / 16);
        let c = hex_digit_char(n % 16);
        assert(t.push(c).drop_last() =~= t);
        assert(t.push(c).last() == c);
        assert(hex_value(t.push(c)) == hex_value(t) * 16 + hex_digit_value(c));
        assert(hex_value(t.push(c)) == n);
        assert(all_hex_digits(t.push(c))) by {
            assert forall|i: int| 0 <= i < t.push(c).len() implies is_hex_digit(
                #[trigger] t.push(c)[i],
            ) by {
                if i < t.len() {
                    assert(t.push(c)[i] == t[i]);
                }
            }
        }
        assert(!t.push(c).contains(':') && !t.push(c).contains('/') && !t.push(c).contains('.'))
            by {
            if t.push(c).contains(':') || t.push(c).contains('/') || t.push(c).contains('.') {
                let k = choose|k: int|
                    0 <= k < t.push(c).len() && (t.push(c)[k] == ':' || t.push(c)[k] == '/'
                        || t.push(c)[k] == '.');
                if k < t.len() {
                    assert(t[k] == t.push(c)[k]);
                }
            }
        }
    }
}

/// Decimal value grows as digits are appended.
pub proof fn lemma_dec_value_prefix(s: Seq<char>, i: int)
    requires
        0 <= i <= s.len(),
    ensures
        dec_value(s.subrange(0, i)) <= dec_value(s),
    decreases s.len() - i,
{
    if i < s.len() {
        lemma_dec_value_prefix(s, i + 1);
        assert(s.subrange(0, i + 1).drop_last() =~= s.subrange(0, i));
    } else {
        assert(s.subrange(0, i) =~= s);
    }
}

pub proof fn lemma_concat_lacks(a: Seq<char>, b: Seq<char>, c: char)
    requires
        !a.contains(c),
        !b.contains(c),
    ensures
        !(a + b).contains(c),
{
    if (a + b).contains(c) {
        let k = choose|k: int| 0 <= k < (a + b).len() && (a + b)[k] == c;
        if k < a.len() {
            assert(a[k] == c);
        } else {
            assert(b[k - a.len()] == c);
        }
    }
}

pub proof fn lemma_single_lacks(x: char, c: char)
    requires
        x != c,
    ensures
        !seq![x].contains(c),
{
    if seq![x].contains(c) {
        let k = choose|k: int| 0 <= k < 1 && seq![x][k] == c;
        assert(seq![x][0] == x);
    }
}

/// The characters of `s`, one by one.
pub fn chars_of(s: &str) -> (r: Vec<char>)
    ensures
        r@ == s@,
{
    let n = s.unicode_len();
    let mut r: Vec<char> = Vec::new();
    let mut i: usize = 0;
    while i < n
        invariant
            n == s@.len(),
            i <= n,
            r@ == s@.subrange(0, i as int),
        decreases n - i,
    {
        r.push(s.get_char(i));
        i = i + 1;
        assert(r@ =~= s@.subrange(0, i as int));
    }
    assert(r@ =~= s@);
    r
}

/// The pieces of `s` between the occurrences of `sep`.
pub fn split_chars(s: &Vec<char>, sep: char) -> (r: Vec<Vec<char>>)
    ensures
        views(r@) == split(s@, sep),
{
    let mut parts: Vec<Vec<char>> = Vec::new();
    let mut cur: Vec<char> = Vec::new();
    let mut i: usize = 0;
    while i < s.len()
        invariant
            i <= s.len(),
            views(parts@).push(cur@) == split(s@.subrange(0, i as int), sep),
        decreases s.len() - i,
    {
        let c = s[i];
        proof {
            assert(s@.subrange(0, i + 1).drop_last() =~= s@.subrange(0, i as int));
        }
        assert(s@.subrange(0, i + 1).last() == c);
        if c == sep {
            let done = cur;
            parts.push(done);
            cur = Vec::new();
            assert(views(parts@).push(cur@) =~= split(s@.subrange(0, i + 1), sep));
        } else {
            let ghost before = views(parts@).push(cur@);
            cur.push(c);
            assert(views(parts@).push(cur@) =~= before.update(
                before.len() - 1,
                before.last().push(c),
            ));
        }
        i = i + 1;
    }
    let ghost before = views(parts@).push(cur@);
    parts.push(cur);
    assert(s@.subrange(0, s.len() as int) =~= s@);
    assert(views(parts@) =~= before);
    parts
}

/// The lower-case hexadecimal (or decimal) digit for `d`.
pub fn digit_str(d: u8) -> (r: &'static str)
    requires
        d < 16,
    ensures
        r@ == seq![hex_digit_char(d as nat)],
{
    let r = match d {
        0 => "0",
        1 => "1",
        2 => "2",
        3 => "3",
        4 => "4",
        5 => "5",
        6 => "6",
        7 => "7",
        8 => "8",
        9 => "9",
        10 => "a",
        11 => "b",
        12 => "c",
        13 => "d",
        14 => "e",
        _ => "f",
    };
    proof {
        reveal_strlit("0");
        reveal_strlit("1");
        reveal_strlit("2");
        reveal_strlit("3");
        reveal_strlit("4");
        reveal_strlit("5");
        reveal_strlit("6");
        reveal_strlit("7");
        reveal_strlit("8");
        reveal_strlit("9");
        reveal_strlit("a");
        reveal_strlit("b");
        reveal_strlit("c");
        reveal_strlit("d");
        reveal_strlit("e");
        reveal_strlit("f");
        assert(r@ =~= seq![hex_digit_char(d as nat)]);
    }
    r
}

/// Appends `n` in decimal.
pub fn push_dec(out: &mut String, n: u8)
    ensures
        final(out)@ == old(out)@ + dec_text(n as nat),
{
    proof {
        reveal_with_fuel(dec_text, 3);
    }
    let ghost start = out@;
    if n >= 100 {
        out.append(digit_str(n / 100));
    }
    if n >= 10 {
        out.append(digit_str((n / 10) % 10));
    }
    out.append(digit_str(n % 10));
    proof {
        if n >= 100 {
            assert((n as nat / 10) / 10 == n as nat / 100);
            assert(out@ =~= start + dec_text(n as nat));
        } else if n >= 10 {
            assert(out@ =~= start + dec_text(n as nat));
        } else {
            assert(out@ =~= start + dec_text(n as nat));
        }
    }
}

/// Appends `n` in lower-case hexadecimal.
pub fn push_hex(out: &mut String, n: u16)
    ensures
        final(out)@ == old(out)@ + hex_text(n as nat),
{
    proof {
        reveal_with_fuel(hex_text, 4);
    }
    let ghost start = out@;
    if n >= 4096 {
        out.append(digit_str((n / 4096) as u8));
    }
    if n >= 256 {
        out.append(digit_str(((n / 256) % 16) as u8));
    }
    if n >= 16 {
        out.append(digit_str(((n / 16) % 16) as u8));
    }
    out.append(digit_str((n % 16) as u8));
    proof {
        let m = n as nat;
        assert((m / 16) / 16 == m / 256);
        assert((m / 256) / 16 == m / 4096);
        if n >= 4096 {
            assert(out@ =~= start + hex_text(m));
        } else if n >= 256 {
            assert(out@ =~= start + hex_text(m));
        } else if n >= 16 {
            assert(out@ =~= start + hex_text(m));
        } else {
            assert(out@ =~= start + hex_text(m));
        }
    }
}

} // verus!
