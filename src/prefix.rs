use vstd::prelude::*;

use crate::text::{
    all_dec_digits, all_hex_digits, chars_of, dec_text, dec_value, hex_text, hex_value,
    is_dec_digit, is_hex_digit, lemma_concat_lacks, lemma_dec_text_digits, lemma_hex_text_digits,
    lemma_single_lacks,
    lemma_split_join, lemma_split_no_sep, lemma_split_nonempty, push_dec, push_hex, split, split_chars,
    views,
};

verus! {

/// Why a prefix could not be read, or an entry could not be normalized.
#[derive(Clone, Copy, Debug, PartialEq, Eq, Structural)]
pub enum BlockError {
    /// The text has no address or no length part.
    MissingComponent,
    /// The address part is not a valid literal of the family.
    MalformedAddress,
    /// The length part is not an unsigned decimal that fits in eight bits.
    MalformedLength,
    /// A feed entry carries neither an IPv4 nor an IPv6 prefix.
    MissingPrefix,
}

/// An IPv4 network prefix: four address octets, most significant first, and a length.
#[derive(Clone, Copy, Debug, PartialEq, Eq)]
pub struct V4Prefix {
    pub ip: [u8; 4],
    pub prefix: u8,
}

/// A dotted-quad octet as the standard address grammar writes it: one to three
/// decimal digits, no leading zero, at most 255.
pub open spec fn is_octet_text(p: Seq<char>) -> bool {
    &&& 1 <= p.len() <= 3
    &&& all_dec_digits(p)
    &&& (p.len() == 1 || p[0] != '0')
    &&& dec_value(p) <= 255
}

/// Whether `t` is an IPv4 address literal `a.b.c.d`.
pub open spec fn is_v4_addr_text(t: Seq<char>) -> bool {
    let ps = split(t, '.');
    &&& ps.len() == 4
    &&& forall|i: int| 0 <= i < 4 ==> is_octet_text(#[trigger] ps[i])
}

/// The digits of a prefix length: an optional leading `+` is dropped, as for `u8`.
pub open spec fn length_digits(t: Seq<char>) -> Seq<char> {
    if t.len() > 0 && t[0] == '+' {
        t.drop_first()
    } else {
        t
    }
}

/// Whether `t` reads as an unsigned decimal of eight bits.
pub open spec fn is_length_text(t: Seq<char>) -> bool {
    let d = length_digits(t);
    &&& d.len() > 0
    &&& all_dec_digits(d)
    &&& dec_value(d) <= 255
}

/// The address part of a CIDR text: what precedes the first `/`.
pub open spec fn addr_part(s: Seq<char>) -> Seq<char> {
    split(s, '/')[0]
}

/// The length part of a CIDR text: what follows the first `/`.
pub open spec fn length_part(s: Seq<char>) -> Seq<char> {
    split(s, '/')[1]
}

/// The error met in reading `s` as a prefix of a family whose address literals
/// are those for which `addr_ok` holds, or `None` when `s` reads.
pub open spec fn cidr_error(s: Seq<char>, addr_ok: bool) -> Option<BlockError> {
    if !addr_ok {
        Some(BlockError::MalformedAddress)
    } else if split(s, '/').len() != 2 {
        Some(BlockError::MissingComponent)
    } else if !is_length_text(length_part(s)) {
        Some(BlockError::MalformedLength)
    } else {
        None
    }
}

pub open spec fn v4_error(s: Seq<char>) -> Option<BlockError> {
    cidr_error(s, is_v4_addr_text(addr_part(s)))
}

/// `s` reads as an IPv4 prefix, and `p` is the value it denotes.
pub open spec fn v4_denotes(s: Seq<char>, p: V4Prefix) -> bool {
    let octets = split(addr_part(s), '.');
    &&& v4_error(s) is None
    &&& forall|i: int| 0 <= i < 4 ==> p.ip[i] as nat == dec_value(#[trigger] octets[i])
    &&& p.prefix as nat == dec_value(length_digits(length_part(s)))
}

/// The dotted-quad text of four octets.
pub open spec fn v4_addr_text(ip: [u8; 4]) -> Seq<char> {
    dec_text(ip[0] as nat) + seq!['.'] + dec_text(ip[1] as nat) + seq!['.'] + dec_text(
        ip[2] as nat,
    ) + seq!['.'] + dec_text(ip[3] as nat)
}

impl V4Prefix {
    /// The canonical text `a.b.c.d/n`.
    pub open spec fn text(self) -> Seq<char> {
        v4_addr_text(self.ip) + seq!['/'] + dec_text(self.prefix as nat)
    }

    /// Reads `address/length`. The length is not checked against 32.
    pub fn from_str(s: &str) -> (r: Result<V4Prefix, BlockError>)
        ensures
            match r {
                Ok(p) => v4_denotes(s@, p),
                Err(e) => v4_error(s@) == Some(e),
            },
    {
        let cs = chars_of(s);
        let parts = split_chars(&cs, '/');
        proof {
            lemma_split_nonempty(s@, '/');
            assert(parts@[0]@ == addr_part(s@));
        }
        match parse_v4_addr(&parts[0]) {
            None => Err(BlockError::MalformedAddress),
            Some(ip) => {
                if parts.len() != 2 {
                    Err(BlockError::MissingComponent)
                } else {
                    proof {
                        assert(parts@[1]@ == length_part(s@));
                    }
                    match parse_length(&parts[1]) {
                        None => Err(BlockError::MalformedLength),
                        Some(prefix) => Ok(V4Prefix { ip, prefix }),
                    }
                }
            },
        }
    }

    /// Renders the prefix as `a.b.c.d/n`.
    pub fn to_string(&self) -> (r: String)
        ensures
            r@ == self.text(),
    {
        let mut r = String::new();
        push_dec(&mut r, self.ip[0]);
        r.append(".");
        push_dec(&mut r, self.ip[1]);
        r.append(".");
        push_dec(&mut r, self.ip[2]);
        r.append(".");
        push_dec(&mut r, self.ip[3]);
        r.append("/");
        push_dec(&mut r, self.prefix);
        proof {
            reveal_strlit(".");
            reveal_strlit("/");
            assert(r@ =~= self.text());
        }
        r
    }
}

/// Reads one octet of a dotted quad.
fn parse_octet(p: &Vec<char>) -> (r: Option<u8>)
    ensures
        r is Some <==> is_octet_text(p@),
        r matches Some(v) ==> v as nat == dec_value(p@),
{
    let n = p.len();
    if n < 1 || n > 3 {
        return None;
    }
    let mut v: u32 = 0;
    let mut i: usize = 0;
    while i < n
        invariant
            n == p.len(),
            1 <= n <= 3,
            i <= n,
            all_dec_digits(p@.subrange(0, i as int)),
            v as nat == dec_value(p@.subrange(0, i as int)),
            v < 1000,
            i == 0 ==> v == 0,
            i == 1 ==> v < 10,
            i == 2 ==> v < 100,
        decreases n - i,
    {
        let c = p[i];
        if !('0' <= c && c <= '9') {
            assert(!is_dec_digit(p@[i as int]));
            return None;
        }
        proof {
            assert(p@.subrange(0, i + 1).drop_last() =~= p@.subrange(0, i as int));
        }
        v = v * 10 + (c as u32 - '0' as u32);
        i = i + 1;
        assert(all_dec_digits(p@.subrange(0, i as int))) by {
            assert forall|j: int| 0 <= j < i implies is_dec_digit(
                #[trigger] p@.subrange(0, i as int)[j],
            ) by {
                if j < i - 1 {
                    assert(p@.subrange(0, i as int)[j] == p@.subrange(0, i - 1)[j]);
                }
            }
        }
    }
    assert(p@.subrange(0, n as int) =~= p@);
    if n > 1 && p[0] == '0' {
        return None;
    }
    if v > 255 {
        return None;
    }
    Some(v as u8)
}

/// Reads an IPv4 address literal into its octets.
fn parse_v4_addr(t: &Vec<char>) -> (r: Option<[u8; 4]>)
    ensures
        r is Some <==> is_v4_addr_text(t@),
        r matches Some(ip) ==> forall|i: int|
            0 <= i < 4 ==> ip[i] as nat == dec_value(#[trigger] split(t@, '.')[i]),
{
    let parts = split_chars(t, '.');
    if parts.len() != 4 {
        return None;
    }
    let mut ip: [u8; 4] = [0, 0, 0, 0];
    let mut i: usize = 0;
    while i < 4
        invariant
            i <= 4,
            parts.len() == 4,
            views(parts@) == split(t@, '.'),
            forall|j: int| 0 <= j < i ==> is_octet_text(#[trigger] split(t@, '.')[j]),
            forall|j: int| 0 <= j < i ==> ip[j] as nat == dec_value(#[trigger] split(t@, '.')[j]),
        decreases 4 - i,
    {
        assert(parts@[i as int]@ == split(t@, '.')[i as int]);
        match parse_octet(&parts[i]) {
            None => {
                return None;
            },
            Some(v) => {
                ip[i] = v;
            },
        }
        i = i + 1;
    }
    Some(ip)
}

/// Reads a prefix length as `u8` reads: an optional `+`, then decimal digits.
fn parse_length(t: &Vec<char>) -> (r: Option<u8>)
    ensures
        r is Some <==> is_length_text(t@),
        r matches Some(v) ==> v as nat == dec_value(length_digits(t@)),
{
    let n = t.len();
    let start: usize = if n > 0 && t[0] == '+' {
        1
    } else {
        0
    };
    let ghost d = length_digits(t@);
    assert(d =~= t@.subrange(start as int, n as int));
    if start == n {
        return None;
    }
    let mut v: u32 = 0;
    let mut i: usize = start;
    while i < n
        invariant
            n == t.len(),
            start <= i <= n,
            d == t@.subrange(start as int, n as int),
            d == length_digits(t@),
            all_dec_digits(t@.subrange(start as int, i as int)),
            v <= 256,
            v <= 255 ==> v as nat == dec_value(t@.subrange(start as int, i as int)),
            v == 256 ==> dec_value(t@.subrange(start as int, i as int)) > 255,
        decreases n - i,
    {
        let c = t[i];
        if !('0' <= c && c <= '9') {
            assert(d[i - start] == c);
            assert(!is_dec_digit(d[i - start]));
            return None;
        }
        proof {
            assert(t@.subrange(start as int, i + 1).drop_last() =~= t@.subrange(
                start as int,
                i as int,
            ));
        }
        if v <= 255 {
            v = v * 10 + (c as u32 - '0' as u32);
            if v > 255 {
                v = 256;
            }
        }
        i = i + 1;
        assert(all_dec_digits(t@.subrange(start as int, i as int))) by {
            assert forall|j: int| 0 <= j < i - start implies is_dec_digit(
                #[trigger] t@.subrange(start as int, i as int)[j],
            ) by {
                if j < i - 1 - start {
                    assert(t@.subrange(start as int, i as int)[j] == t@.subrange(
                        start as int,
                        i - 1,
                    )[j]);
                }
            }
        }
    }
    if v > 255 {
        return None;
    }
    Some(v as u8)
}

/// Reading the text of an IPv4 prefix gives back that prefix.
pub proof fn lemma_v4_round_trip(p: V4Prefix)
    ensures
        v4_denotes(p.text(), p),
        forall|q: V4Prefix| #[trigger] v4_denotes(p.text(), q) ==> q == p,
{
    let d0 = dec_text(p.ip[0] as nat);
    let d1 = dec_text(p.ip[1] as nat);
    let d2 = dec_text(p.ip[2] as nat);
    let d3 = dec_text(p.ip[3] as nat);
    let dl = dec_text(p.prefix as nat);
    lemma_dec_text_digits(p.ip[0] as nat);
    lemma_dec_text_digits(p.ip[1] as nat);
    lemma_dec_text_digits(p.ip[2] as nat);
    lemma_dec_text_digits(p.ip[3] as nat);
    lemma_dec_text_digits(p.prefix as nat);
    let a = v4_addr_text(p.ip);
    lemma_split_no_sep(d0, '.');
    lemma_split_no_sep(d1, '.');
    lemma_split_no_sep(d2, '.');
    lemma_split_no_sep(d3, '.');
    lemma_split_join(d0, d1, '.');
    lemma_split_join(d0 + seq!['.'] + d1, d2, '.');
    lemma_split_join(d0 + seq!['.'] + d1 + seq!['.'] + d2, d3, '.');
    let octets = split(a, '.');
    assert(octets =~= seq![d0, d1, d2, d3]);
    assert(!a.contains('/')) by {
        if a.contains('/') {
            let k = choose|k: int| 0 <= k < a.len() && a[k] == '/';
            if k < d0.len() {
                assert(d0[k] == '/');
            } else if k == d0.len() {
            } else if k < d0.len() + 1 + d1.len() {
                assert(d1[k - d0.len() - 1] == '/');
            } else if k == d0.len() + 1 + d1.len() {
            } else if k < d0.len() + 2 + d1.len() + d2.len() {
                assert(d2[k - d0.len() - d1.len() - 2] == '/');
            } else if k == d0.len() + 2 + d1.len() + d2.len() {
            } else {
                assert(d3[k - d0.len() - d1.len() - d2.len() - 3] == '/');
            }
        }
    }
    lemma_split_no_sep(a, '/');
    lemma_split_no_sep(dl, '/');
    lemma_split_join(a, dl, '/');
    assert(split(p.text(), '/') =~= seq![a, dl]);
    assert(length_digits(dl) == dl) by {
        lemma_digits_not_plus(dl);
    }
    assert forall|q: V4Prefix| #[trigger] v4_denotes(p.text(), q) implies q == p by {
        assert(q.ip =~= p.ip) by {
            assert forall|i: int| 0 <= i < 4 implies q.ip[i] == p.ip[i] by {
                assert(q.ip[i] as nat == dec_value(octets[i]));
            }
        }
    }
}

proof fn lemma_digits_not_plus(d: Seq<char>)
    requires
        d.len() > 0,
        all_dec_digits(d),
    ensures
        length_digits(d) == d,
{
    assert(is_dec_digit(d[0]));
}

} // verus!

verus! {

/// An IPv6 network prefix: eight 16-bit address segments, most significant first,
/// and a length.
#[derive(Clone, Copy, Debug, PartialEq, Eq)]
pub struct V6Prefix {
    pub ip: [u16; 8],
    pub prefix: u8,
}

/// One group of an IPv6 literal: one to four hexadecimal digits.
pub open spec fn is_hex_group(p: Seq<char>) -> bool {
    1 <= p.len() <= 4 && all_hex_digits(p)
}

/// The index of the first empty piece, or the number of pieces when none is empty.
pub open spec fn first_empty(ps: Seq<Seq<char>>) -> nat
    decreases ps.len(),
{
    if ps.len() == 0 {
        0
    } else if ps[0].len() == 0 {
        0
    } else {
        1 + first_empty(ps.drop_first())
    }
}

/// The extra width of the last colon-separated piece: 1 when it is a dotted quad,
/// which stands for the last two groups, else 0.
pub open spec fn v6_tail_width(ps: Seq<Seq<char>>) -> int {
    if ps.len() > 0 && is_v4_addr_text(ps[ps.len() - 1]) {
        1
    } else {
        0
    }
}

/// Where the groups of an IPv6 literal stand among its colon-separated pieces:
/// how many come before the `::` gap, where those after it start, and how many
/// these are. With no gap, all pieces count as before it, but a final dotted quad
/// counts as after it. `w` is the extra width of the last piece. `None` when the
/// pieces cannot form a literal: a lone colon at either end, a second gap, or a
/// wrong number of groups.
pub open spec fn v6_layout(ps: Seq<Seq<char>>, w: int) -> Option<(int, int, int)> {
    let n = ps.len() as int;
    let k = first_empty(ps) as int;
    if k == n {
        if n + w == 8 {
            if w == 1 {
                Some((n - 1, n - 1, 1))
            } else {
                Some((8, 8, 0))
            }
        } else {
            None
        }
    } else if k == 0 {
        if n == 3 && ps[1].len() == 0 && ps[2].len() == 0 {
            Some((0, 3, 0))
        } else if 3 <= n && n - 2 + w <= 7 && ps[1].len() == 0 {
            Some((0, 2, n - 2))
        } else {
            None
        }
    } else if k == n - 2 && ps[n - 1].len() == 0 {
        if k <= 7 {
            Some((k, n, 0))
        } else {
            None
        }
    } else if k < n - 1 && n - 1 + w <= 7 {
        Some((k, k + 1, n - k - 1))
    } else {
        None
    }
}

/// Whether `t` is an IPv6 address literal: hexadecimal groups, at most one `::`
/// standing for one or more zero groups, and possibly a dotted quad for the last
/// two groups.
pub open spec fn is_v6_addr_text(t: Seq<char>) -> bool {
    let ps = split(t, ':');
    let w = v6_tail_width(ps);
    match v6_layout(ps, w) {
        Some((hc, ts, tc)) => {
            &&& forall|i: int| 0 <= i < hc ==> is_hex_group(#[trigger] ps[i])
            &&& forall|i: int| ts <= i < ts + tc - w ==> is_hex_group(#[trigger] ps[i])
        },
        None => false,
    }
}

/// The 16-bit group made of octets `2k` and `2k + 1` of the dotted quad `t`.
pub open spec fn v4_group(t: Seq<char>, k: int) -> nat {
    let os = split(t, '.');
    dec_value(os[2 * k]) * 256 + dec_value(os[2 * k + 1])
}

/// Segment `i` of the IPv6 literal `t`: a group before the gap, a group after it
/// (from a final dotted quad for the last two), or a zero that the gap stands for.
pub open spec fn v6_segment(t: Seq<char>, i: int) -> nat {
    let ps = split(t, ':');
    let w = v6_tail_width(ps);
    let (hc, ts, tc) = v6_layout(ps, w)->0;
    let tg = tc + w;
    if i < hc {
        hex_value(ps[i])
    } else if i >= 8 - tg {
        let g = i - (8 - tg);
        if w == 1 && g >= tc - 1 {
            v4_group(ps[ts + tc - 1], g - (tc - 1))
        } else {
            hex_value(ps[ts + g])
        }
    } else {
        0
    }
}

pub open spec fn v6_error(s: Seq<char>) -> Option<BlockError> {
    cidr_error(s, is_v6_addr_text(addr_part(s)))
}

/// `s` reads as an IPv6 prefix, and `p` is the value it denotes.
pub open spec fn v6_denotes(s: Seq<char>, p: V6Prefix) -> bool {
    &&& v6_error(s) is None
    &&& forall|i: int| 0 <= i < 8 ==> p.ip[i] as nat == #[trigger] v6_segment(addr_part(s), i)
    &&& p.prefix as nat == dec_value(length_digits(length_part(s)))
}

/// The full eight-group text of an IPv6 address, without `::` compression.
pub open spec fn v6_addr_text(ip: [u16; 8]) -> Seq<char> {
    hex_text(ip[0] as nat) + seq![':'] + hex_text(ip[1] as nat) + seq![':'] + hex_text(
        ip[2] as nat,
    ) + seq![':'] + hex_text(ip[3] as nat) + seq![':'] + hex_text(ip[4] as nat) + seq![':']
        + hex_text(ip[5] as nat) + seq![':'] + hex_text(ip[6] as nat) + seq![':'] + hex_text(
        ip[7] as nat,
    )
}

impl V6Prefix {
    /// The canonical text `h:h:h:h:h:h:h:h/n`.
    pub open spec fn text(self) -> Seq<char> {
        v6_addr_text(self.ip) + seq!['/'] + dec_text(self.prefix as nat)
    }

    /// Reads `address/length`. The length is not checked against 128.
    pub fn from_str(s: &str) -> (r: Result<V6Prefix, BlockError>)
        ensures
            match r {
                Ok(p) => v6_denotes(s@, p),
                Err(e) => v6_error(s@) == Some(e),
            },
    {
        let cs = chars_of(s);
        let parts = split_chars(&cs, '/');
        proof {
            lemma_split_nonempty(s@, '/');
            assert(parts@[0]@ == addr_part(s@));
        }
        match parse_v6_addr(&parts[0]) {
            None => Err(BlockError::MalformedAddress),
            Some(ip) => {
                if parts.len() != 2 {
                    Err(BlockError::MissingComponent)
                } else {
                    proof {
                        assert(parts@[1]@ == length_part(s@));
                    }
                    match parse_length(&parts[1]) {
                        None => Err(BlockError::MalformedLength),
                        Some(prefix) => Ok(V6Prefix { ip, prefix }),
                    }
                }
            },
        }
    }

    /// Renders the prefix with all eight groups, as `h:h:h:h:h:h:h:h/n`.
    pub fn to_string(&self) -> (r: String)
        ensures
            r@ == self.text(),
    {
        let mut r = String::new();
        push_hex(&mut r, self.ip[0]);
        r.append(":");
        push_hex(&mut r, self.ip[1]);
        r.append(":");
        push_hex(&mut r, self.ip[2]);
        r.append(":");
        push_hex(&mut r, self.ip[3]);
        r.append(":");
        push_hex(&mut r, self.ip[4]);
        r.append(":");
        push_hex(&mut r, self.ip[5]);
        r.append(":");
        push_hex(&mut r, self.ip[6]);
        r.append(":");
        push_hex(&mut r, self.ip[7]);
        r.append("/");
        push_dec(&mut r, self.prefix);
        proof {
            reveal_strlit(":");
            reveal_strlit("/");
            assert(r@ =~= self.text());
        }
        r
    }
}

/// Reads one group of an IPv6 literal.
fn parse_hex_group(p: &Vec<char>) -> (r: Option<u16>)
    ensures
        r is Some <==> is_hex_group(p@),
        r matches Some(v) ==> v as nat == hex_value(p@),
{
    let n = p.len();
    if n < 1 || n > 4 {
        return None;
    }
    let mut v: u32 = 0;
    let mut i: usize = 0;
    while i < n
        invariant
            n == p.len(),
            1 <= n <= 4,
            i <= n,
            all_hex_digits(p@.subrange(0, i as int)),
            v as nat == hex_value(p@.subrange(0, i as int)),
            i == 0 ==> v == 0,
            i == 1 ==> v < 16,
            i == 2 ==> v < 256,
            i == 3 ==> v < 4096,
            i == 4 ==> v < 65536,
        decreases n - i,
    {
        let c = p[i];
        let d: u32;
        if '0' <= c && c <= '9' {
            d = c as u32 - '0' as u32;
        } else if 'a' <= c && c <= 'f' {
            d = c as u32 - 'a' as u32 + 10;
        } else if 'A' <= c && c <= 'F' {
            d = c as u32 - 'A' as u32 + 10;
        } else {
            assert(!is_hex_digit(p@[i as int]));
            return None;
        }
        proof {
            assert(p@.subrange(0, i + 1).drop_last() =~= p@.subrange(0, i as int));
        }
        v = v * 16 + d;
        i = i + 1;
        assert(all_hex_digits(p@.subrange(0, i as int))) by {
            assert forall|j: int| 0 <= j < i implies is_hex_digit(
                #[trigger] p@.subrange(0, i as int)[j],
            ) by {
                if j < i - 1 {
                    assert(p@.subrange(0, i as int)[j] == p@.subrange(0, i - 1)[j]);
                }
            }
        }
    }
    assert(p@.subrange(0, n as int) =~= p@);
    Some(v as u16)
}

proof fn lemma_first_empty(ps: Seq<Seq<char>>, k: int)
    requires
        0 <= k <= ps.len(),
        forall|j: int| 0 <= j < k ==> (#[trigger] ps[j]).len() > 0,
        k < ps.len() ==> ps[k].len() == 0,
    ensures
        first_empty(ps) == k,
    decreases k,
{
    if k > 0 {
        assert forall|j: int| 0 <= j < k - 1 implies (#[trigger] ps.drop_first()[j]).len() > 0 by {
            assert(ps.drop_first()[j] == ps[j + 1]);
        }
        lemma_first_empty(ps.drop_first(), k - 1);
    }
}

/// The index of the first empty piece.
fn find_first_empty(parts: &Vec<Vec<char>>) -> (k: usize)
    ensures
        k as nat == first_empty(views(parts@)),
        k <= parts.len(),
{
    let ghost ps = views(parts@);
    let mut k: usize = 0;
    while k < parts.len() && parts[k].len() != 0
        invariant
            k <= parts.len(),
            ps == views(parts@),
            forall|j: int| 0 <= j < k ==> (#[trigger] ps[j]).len() > 0,
        decreases parts.len() - k,
    {
        k = k + 1;
    }
    proof {
        lemma_first_empty(ps, k as int);
    }
    k
}

/// Reads an IPv6 address literal into its segments.
fn parse_v6_addr(t: &Vec<char>) -> (r: Option<[u16; 8]>)
    ensures
        r is Some <==> is_v6_addr_text(t@),
        r matches Some(ip) ==> forall|i: int|
            0 <= i < 8 ==> ip[i] as nat == #[trigger] v6_segment(t@, i),
{
    let parts = split_chars(t, ':');
    let ghost ps = split(t@, ':');
    let n = parts.len();
    proof {
        lemma_split_nonempty(t@, ':');
        assert(parts@[n - 1]@ == ps[n - 1]);
    }
    let quad = parse_v4_addr(&parts[n - 1]);
    let w: usize = if quad.is_some() {
        1
    } else {
        0
    };
    assert(w == v6_tail_width(ps));
    let k = find_first_empty(&parts);
    let hc: usize;
    let ts: usize;
    let tc: usize;
    if k == n {
        if n != 8 - w {
            return None;
        }
        if w == 1 {
            hc = n - 1;
            ts = n - 1;
            tc = 1;
        } else {
            hc = 8;
            ts = 8;
            tc = 0;
        }
    } else if k == 0 {
        if n == 3 && parts[1].len() == 0 && parts[2].len() == 0 {
            hc = 0;
            ts = 3;
            tc = 0;
        } else if 3 <= n && n - 2 + w <= 7 && parts[1].len() == 0 {
            hc = 0;
            ts = 2;
            tc = n - 2;
        } else {
            return None;
        }
    } else if n >= 2 && k == n - 2 && parts[n - 1].len() == 0 {
        if k > 7 {
            return None;
        }
        hc = k;
        ts = n;
        tc = 0;
    } else if k + 1 < n && n - 1 + w <= 7 {
        hc = k;
        ts = k + 1;
        tc = n - k - 1;
    } else {
        return None;
    }
    assert(v6_layout(ps, w as int) == Some((hc as int, ts as int, tc as int)));
    assert(w == 1 ==> tc >= 1 && ts + tc == n);
    let mut ip: [u16; 8] = [0, 0, 0, 0, 0, 0, 0, 0];
    let mut i: usize = 0;
    while i < hc
        invariant
            i <= hc,
            hc + tc + w <= 8,
            ts + tc <= n,
            n == parts.len(),
            views(parts@) == ps,
            ps == split(t@, ':'),
            w == v6_tail_width(ps),
            v6_layout(ps, w as int) == Some((hc as int, ts as int, tc as int)),
            forall|j: int| 0 <= j < i ==> is_hex_group(#[trigger] ps[j]),
            forall|j: int| 0 <= j < i ==> ip[j] as nat == #[trigger] v6_segment(t@, j),
            forall|j: int| hc <= j < 8 ==> ip[j] == 0,
        decreases hc - i,
    {
        assert(parts@[i as int]@ == ps[i as int]);
        assert(v6_segment(t@, i as int) == hex_value(ps[i as int]));
        match parse_hex_group(&parts[i]) {
            None => {
                assert(!is_hex_group(ps[i as int]));
                return None;
            },
            Some(v) => {
                ip[i] = v;
            },
        }
        i = i + 1;
    }
    let tg = tc + w;
    let mut j: usize = 0;
    while j < tc - w
        invariant
            j <= tc - w,
            tg == tc + w,
            hc + tg <= 8,
            ts + tc <= n,
            w == 1 ==> tc >= 1 && ts + tc == n,
            n == parts.len(),
            views(parts@) == ps,
            ps == split(t@, ':'),
            w == v6_tail_width(ps),
            v6_layout(ps, w as int) == Some((hc as int, ts as int, tc as int)),
            forall|x: int| 0 <= x < hc ==> is_hex_group(#[trigger] ps[x]),
            forall|x: int| ts <= x < ts + j ==> is_hex_group(#[trigger] ps[x]),
            forall|x: int|
                0 <= x < 8 && !(8 - tg + j <= x < 8) ==> ip[x] as nat == #[trigger] v6_segment(
                    t@,
                    x,
                ),
        decreases tc - w - j,
    {
        assert(parts@[(ts + j) as int]@ == ps[(ts + j) as int]);
        assert(v6_segment(t@, (8 - tg + j) as int) == hex_value(ps[(ts + j) as int]));
        match parse_hex_group(&parts[ts + j]) {
            None => {
                assert(!is_hex_group(ps[(ts + j) as int]));
                return None;
            },
            Some(v) => {
                ip[8 - tg + j] = v;
            },
        }
        j = j + 1;
    }
    if let Some(q) = quad {
        let ghost last = ps[n - 1];
        assert(ts + tc - 1 == n - 1);
        assert(forall|m: int| 0 <= m < 4 ==> q[m] as nat == dec_value(#[trigger] split(last, '.')[m]));
        ip[6] = (q[0] as u16) * 256 + q[1] as u16;
        ip[7] = (q[2] as u16) * 256 + q[3] as u16;
        assert(v6_segment(t@, 6) == v4_group(last, 0));
        assert(v6_segment(t@, 7) == v4_group(last, 1));
    }
    Some(ip)
}

} // verus!

verus! {

/// Reading the full text of an IPv6 prefix gives back that prefix.
pub proof fn lemma_v6_round_trip(p: V6Prefix)
    ensures
        v6_denotes(p.text(), p),
        forall|q: V6Prefix| #[trigger] v6_denotes(p.text(), q) ==> q == p,
{
    let h = Seq::new(8, |i: int| hex_text(p.ip[i] as nat));
    assert forall|i: int| 0 <= i < 8 implies is_hex_group(#[trigger] h[i]) && hex_value(h[i])
        == p.ip[i] as nat && !h[i].contains(':') && !h[i].contains('/') && !h[i].contains('.') by {
        lemma_hex_text_digits(p.ip[i] as nat);
    }
    let c = seq![':'];
    let a1 = h[0] + c + h[1];
    let a2 = a1 + c + h[2];
    let a3 = a2 + c + h[3];
    let a4 = a3 + c + h[4];
    let a5 = a4 + c + h[5];
    let a6 = a5 + c + h[6];
    let a = a6 + c + h[7];
    assert(a == v6_addr_text(p.ip));
    lemma_split_no_sep(h[0], ':');
    lemma_split_no_sep(h[1], ':');
    lemma_split_no_sep(h[2], ':');
    lemma_split_no_sep(h[3], ':');
    lemma_split_no_sep(h[4], ':');
    lemma_split_no_sep(h[5], ':');
    lemma_split_no_sep(h[6], ':');
    lemma_split_no_sep(h[7], ':');
    lemma_split_join(h[0], h[1], ':');
    lemma_split_join(a1, h[2], ':');
    lemma_split_join(a2, h[3], ':');
    lemma_split_join(a3, h[4], ':');
    lemma_split_join(a4, h[5], ':');
    lemma_split_join(a5, h[6], ':');
    lemma_split_join(a6, h[7], ':');
    let ps = split(a, ':');
    assert(ps =~= h);
    lemma_first_empty(ps, 8);
    lemma_split_no_sep(h[7], '.');
    assert(v6_tail_width(ps) == 0);
    assert(v6_layout(ps, 0) == Some((8int, 8int, 0int)));
    lemma_single_lacks(':', '/');
    lemma_concat_lacks(h[0], c, '/');
    lemma_concat_lacks(h[0] + c, h[1], '/');
    lemma_concat_lacks(a1, c, '/');
    lemma_concat_lacks(a1 + c, h[2], '/');
    lemma_concat_lacks(a2, c, '/');
    lemma_concat_lacks(a2 + c, h[3], '/');
    lemma_concat_lacks(a3, c, '/');
    lemma_concat_lacks(a3 + c, h[4], '/');
    lemma_concat_lacks(a4, c, '/');
    lemma_concat_lacks(a4 + c, h[5], '/');
    lemma_concat_lacks(a5, c, '/');
    lemma_concat_lacks(a5 + c, h[6], '/');
    lemma_concat_lacks(a6, c, '/');
    lemma_concat_lacks(a6 + c, h[7], '/');
    let dl = dec_text(p.prefix as nat);
    lemma_dec_text_digits(p.prefix as nat);
    lemma_split_no_sep(a, '/');
    lemma_split_no_sep(dl, '/');
    lemma_split_join(a, dl, '/');
    assert(split(p.text(), '/') =~= seq![a, dl]);
    lemma_digits_not_plus(dl);
    assert(is_v6_addr_text(a));
    assert forall|i: int| 0 <= i < 8 implies p.ip[i] as nat == #[trigger] v6_segment(
        addr_part(p.text()),
        i,
    ) by {
        assert(addr_part(p.text()) == a);
    }
    assert forall|q: V6Prefix| #[trigger] v6_denotes(p.text(), q) implies q == p by {
        assert(q.ip =~= p.ip) by {
            assert forall|i: int| 0 <= i < 8 implies q.ip[i] == p.ip[i] by {
                assert(q.ip[i] as nat == v6_segment(addr_part(p.text()), i));
                assert(p.ip[i] as nat == v6_segment(addr_part(p.text()), i));
            }
        }
    }
}

} // verus!

verus! {

/// A network prefix of either address family.
#[derive(Clone, Copy, Debug, PartialEq, Eq)]
pub enum IpPrefix {
    V4(V4Prefix),
    V6(V6Prefix),
}

impl IpPrefix {
    /// The canonical CIDR text of the prefix in its own family.
    pub open spec fn text(self) -> Seq<char> {
        match self {
            IpPrefix::V4(p) => p.text(),
            IpPrefix::V6(p) => p.text(),
        }
    }

    /// Renders the prefix as its family does.
    pub fn to_string(&self) -> (r: String)
        ensures
            r@ == self.text(),
    {
        match self {
            IpPrefix::V4(p) => p.to_string(),
            IpPrefix::V6(p) => p.to_string(),
        }
    }
}

} // verus!
