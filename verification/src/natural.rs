//! The natural order of names: runs of ASCII digits are compared by the number
//! they write, every other run byte by byte.

use core::cmp::Ordering;
use vstd::prelude::*;
use vstd::utf8::encode_utf8;

verus! {

/// How one name stands to another.
#[derive(Clone, Copy, Debug, PartialEq, Eq, Structural)]
pub enum NameOrder {
    Less,
    Equal,
    Greater,
}

impl NameOrder {
    /// The order seen from the other side.
    pub open spec fn reversed(self) -> NameOrder {
        match self {
            NameOrder::Less => NameOrder::Greater,
            NameOrder::Equal => NameOrder::Equal,
            NameOrder::Greater => NameOrder::Less,
        }
    }
}

/// Whether a byte is an ASCII digit.
pub open spec fn is_digit(b: u8) -> bool {
    0x30 <= b && b <= 0x39
}

/// The number a digit stands for; zero for any other byte.
pub open spec fn digit_value(b: u8) -> nat {
    if is_digit(b) {
        (b - 0x30) as nat
    } else {
        0
    }
}

/// How many bytes from `from` on are all digits (`digit`) or all non-digits.
pub open spec fn run_len(s: Seq<u8>, from: int, digit: bool) -> nat
    decreases s.len() - from,
{
    if 0 <= from < s.len() && is_digit(s[from]) == digit {
        1 + run_len(s, from + 1, digit)
    } else {
        0
    }
}

/// Where the maximal run that starts at `from` ends (exclusive).
pub open spec fn section_end(s: Seq<u8>, from: int) -> int
    recommends
        0 <= from < s.len(),
{
    from + 1 + run_len(s, from + 1, is_digit(s[from]))
}

/// Lexicographic order of the bytes `a[i..ea]` and `b[j..eb]`: the first
/// differing byte decides, and a proper prefix comes first.
pub open spec fn lex_order(a: Seq<u8>, i: int, ea: int, b: Seq<u8>, j: int, eb: int) -> NameOrder
    decreases ea - i,
{
    if i >= ea && j >= eb {
        NameOrder::Equal
    } else if i >= ea {
        NameOrder::Less
    } else if j >= eb {
        NameOrder::Greater
    } else if a[i] < b[j] {
        NameOrder::Less
    } else if a[i] > b[j] {
        NameOrder::Greater
    } else {
        lex_order(a, i + 1, ea, b, j + 1, eb)
    }
}

/// The number written by the digits `s[from..to]`, however long.
pub open spec fn run_value(s: Seq<u8>, from: int, to: int) -> nat
    decreases to - from,
{
    if to <= from {
        0
    } else {
        run_value(s, from, to - 1) * 10 + digit_value(s[to - 1])
    }
}

/// Order of two numbers.
pub open spec fn value_order(x: nat, y: nat) -> NameOrder {
    if x < y {
        NameOrder::Less
    } else if x > y {
        NameOrder::Greater
    } else {
        NameOrder::Equal
    }
}

/// The natural order of `a[i..]` and `b[j..]`, taken run by run.
///
/// An exhausted name comes first. Two runs of different kind are decided by
/// the plain bytes of both remainders. Two digit runs are compared by value,
/// two other runs byte by byte; the first pair that differs decides.
pub open spec fn natural_order_from(a: Seq<u8>, i: int, b: Seq<u8>, j: int) -> NameOrder
    recommends
        0 <= i <= a.len(),
        0 <= j <= b.len(),
    decreases a.len() - i,
    via natural_order_decreases
{
    if i >= a.len() && j >= b.len() {
        NameOrder::Equal
    } else if i >= a.len() {
        NameOrder::Less
    } else if j >= b.len() {
        NameOrder::Greater
    } else if is_digit(a[i]) != is_digit(b[j]) {
        lex_order(a, i, a.len() as int, b, j, b.len() as int)
    } else {
        let ea = section_end(a, i);
        let eb = section_end(b, j);
        let here = if is_digit(a[i]) {
            value_order(run_value(a, i, ea), run_value(b, j, eb))
        } else {
            lex_order(a, i, ea, b, j, eb)
        };
        if here != NameOrder::Equal {
            here
        } else {
            natural_order_from(a, ea, b, eb)
        }
    }
}

#[via_fn]
proof fn natural_order_decreases(a: Seq<u8>, i: int, b: Seq<u8>, j: int) {
    if -1 <= i < a.len() {
        lemma_run_len_bound(a, i + 1, is_digit(a[i]));
    }
}

/// A run never reaches past the end of the name.
pub proof fn lemma_run_len_bound(s: Seq<u8>, from: int, digit: bool)
    requires
        0 <= from <= s.len(),
    ensures
        from + run_len(s, from, digit) <= s.len(),
    decreases s.len() - from,
{
    if from < s.len() && is_digit(s[from]) == digit {
        lemma_run_len_bound(s, from + 1, digit);
    }
}

/// The natural order of two names given as bytes.
pub open spec fn natural_order(a: Seq<u8>, b: Seq<u8>) -> NameOrder {
    natural_order_from(a, 0, b, 0)
}

/// The next run of `name` at `from`: its start, its end (exclusive) and
/// whether it is made of digits. `None` once the name is exhausted.
pub fn next_section(name: &[u8], from: usize) -> (r: Option<(usize, usize, bool)>)
    requires
        from <= name@.len(),
    ensures
        match r {
            None => from == name@.len(),
            Some((start, end, digit)) => {
                &&& from < name@.len()
                &&& start == from
                &&& end == section_end(name@, from as int)
                &&& start < end <= name@.len()
                &&& digit == is_digit(name@[from as int])
            },
        },
{
    if from >= name.len() {
        return None;
    }
    let first: u8 = name[from];
    let digit: bool = 0x30 <= first && first <= 0x39;
    let mut end: usize = from + 1;
    while end < name.len() && (0x30 <= name[end] && name[end] <= 0x39) == digit
        invariant
            from < end <= name@.len(),
            section_end(name@, from as int) == end + run_len(name@, end as int, digit),
        decreases name@.len() - end,
    {
        end += 1;
    }
    Some((from, end, digit))
}

/// Compares `a[i..ea]` with `b[j..eb]` byte by byte.
pub fn bytes_order(a: &[u8], i: usize, ea: usize, b: &[u8], j: usize, eb: usize) -> (r: NameOrder)
    requires
        i <= ea <= a@.len(),
        j <= eb <= b@.len(),
    ensures
        r == lex_order(a@, i as int, ea as int, b@, j as int, eb as int),
{
    let mut p: usize = i;
    let mut q: usize = j;
    loop
        invariant
            i <= p <= ea <= a@.len(),
            j <= q <= eb <= b@.len(),
            lex_order(a@, i as int, ea as int, b@, j as int, eb as int) == lex_order(
                a@,
                p as int,
                ea as int,
                b@,
                q as int,
                eb as int,
            ),
        decreases ea - p,
    {
        if p >= ea && q >= eb {
            return NameOrder::Equal;
        } else if p >= ea {
            return NameOrder::Less;
        } else if q >= eb {
            return NameOrder::Greater;
        }
        if a[p] < b[q] {
            return NameOrder::Less;
        }
        if a[p] > b[q] {
            return NameOrder::Greater;
        }
        p += 1;
        q += 1;
    }
}

/// The `k`-th digit of the run `s[from..to]` written with `width` places,
/// zeros in front.
spec fn padded_digit(s: Seq<u8>, from: int, to: int, width: int, k: int) -> nat {
    let pad = width - (to - from);
    if k < pad {
        0
    } else {
        digit_value(s[from + (k - pad)])
    }
}

/// The number written by the first `n` places of the padded run.
spec fn padded_value(s: Seq<u8>, from: int, to: int, width: int, n: int) -> nat
    decreases n,
{
    if n <= 0 {
        0
    } else {
        padded_value(s, from, to, width, n - 1) * 10 + padded_digit(s, from, to, width, n - 1)
    }
}

proof fn lemma_padding_is_zero(s: Seq<u8>, from: int, to: int, width: int, n: int)
    requires
        n <= width - (to - from),
    ensures
        padded_value(s, from, to, width, n) == 0,
    decreases n,
{
    if n > 0 {
        lemma_padding_is_zero(s, from, to, width, n - 1);
    }
}

proof fn lemma_padded_prefix(s: Seq<u8>, from: int, to: int, width: int, m: int)
    requires
        from <= to,
        to - from <= width,
        0 <= m <= to - from,
    ensures
        padded_value(s, from, to, width, width - (to - from) + m) == run_value(s, from, from + m),
    decreases m,
{
    if m == 0 {
        lemma_padding_is_zero(s, from, to, width, width - (to - from));
    } else {
        lemma_padded_prefix(s, from, to, width, m - 1);
    }
}

/// Zeros in front do not change the number that a run writes.
proof fn lemma_padded_value(s: Seq<u8>, from: int, to: int, width: int)
    requires
        from <= to,
        to - from <= width,
    ensures
        padded_value(s, from, to, width, width) == run_value(s, from, to),
{
    lemma_padded_prefix(s, from, to, width, to - from);
}

proof fn lemma_first_difference(
    a: Seq<u8>,
    i: int,
    ea: int,
    b: Seq<u8>,
    j: int,
    eb: int,
    width: int,
    n: int,
    m: int,
)
    requires
        0 <= n < m,
        padded_value(a, i, ea, width, n) == padded_value(b, j, eb, width, n),
        padded_digit(a, i, ea, width, n) < padded_digit(b, j, eb, width, n),
    ensures
        padded_value(a, i, ea, width, m) < padded_value(b, j, eb, width, m),
    decreases m,
{
    if m > n + 1 {
        lemma_first_difference(a, i, ea, b, j, eb, width, n, m - 1);
        assert(padded_digit(a, i, ea, width, m - 1) <= 9);
    }
}

/// Compares the digit runs `a[i..ea]` and `b[j..eb]` by the numbers they
/// write, whatever their length.
pub fn digits_order(a: &[u8], i: usize, ea: usize, b: &[u8], j: usize, eb: usize) -> (r: NameOrder)
    requires
        i <= ea <= a@.len(),
        j <= eb <= b@.len(),
    ensures
        r == value_order(
            run_value(a@, i as int, ea as int),
            run_value(b@, j as int, eb as int),
        ),
{
    let la: usize = ea - i;
    let lb: usize = eb - j;
    let width: usize = if la > lb {
        la
    } else {
        lb
    };
    let pa: usize = width - la;
    let pb: usize = width - lb;
    proof {
        lemma_padded_value(a@, i as int, ea as int, width as int);
        lemma_padded_value(b@, j as int, eb as int, width as int);
    }
    let mut k: usize = 0;
    while k < width
        invariant
            0 <= k <= width,
            i <= ea <= a@.len(),
            j <= eb <= b@.len(),
            la == ea - i,
            lb == eb - j,
            la <= width,
            lb <= width,
            pa == width - la,
            pb == width - lb,
            padded_value(a@, i as int, ea as int, width as int, width as int) == run_value(
                a@,
                i as int,
                ea as int,
            ),
            padded_value(b@, j as int, eb as int, width as int, width as int) == run_value(
                b@,
                j as int,
                eb as int,
            ),
            padded_value(a@, i as int, ea as int, width as int, k as int) == padded_value(
                b@,
                j as int,
                eb as int,
                width as int,
                k as int,
            ),
        decreases width - k,
    {
        let da: u8 = if k < pa {
            0
        } else {
            digit_of(a[i + (k - pa)])
        };
        let db: u8 = if k < pb {
            0
        } else {
            digit_of(b[j + (k - pb)])
        };
        assert(da == padded_digit(a@, i as int, ea as int, width as int, k as int));
        assert(db == padded_digit(b@, j as int, eb as int, width as int, k as int));
        if da < db {
            proof {
                lemma_first_difference(
                    a@,
                    i as int,
                    ea as int,
                    b@,
                    j as int,
                    eb as int,
                    width as int,
                    k as int,
                    width as int,
                );
            }
            return NameOrder::Less;
        }
        if da > db {
            proof {
                lemma_first_difference(
                    b@,
                    j as int,
                    eb as int,
                    a@,
                    i as int,
                    ea as int,
                    width as int,
                    k as int,
                    width as int,
                );
            }
            return NameOrder::Greater;
        }
        k += 1;
    }
    NameOrder::Equal
}

/// The number a digit byte stands for; zero for any other byte.
pub fn digit_of(b: u8) -> (d: u8)
    ensures
        d == digit_value(b),
        d <= 9,
{
    if 0x30 <= b && b <= 0x39 {
        b - 0x30
    } else {
        0
    }
}

/// Compares two names, given as bytes, in the natural order.
pub fn natural_order_of(a: &[u8], b: &[u8]) -> (r: NameOrder)
    ensures
        r == natural_order(a@, b@),
{
    let mut i: usize = 0;
    let mut j: usize = 0;
    loop
        invariant
            i <= a@.len(),
            j <= b@.len(),
            natural_order(a@, b@) == natural_order_from(a@, i as int, b@, j as int),
        decreases a@.len() - i,
    {
        let ra = next_section(a, i);
        let rb = next_section(b, j);
        match (ra, rb) {
            (None, None) => {
                return NameOrder::Equal;
            },
            (None, Some(_)) => {
                return NameOrder::Less;
            },
            (Some(_), None) => {
                return NameOrder::Greater;
            },
            (Some((sa, ea, na)), Some((sb, eb, nb))) => {
                if na != nb {
                    return bytes_order(a, sa, a.len(), b, sb, b.len());
                }
                let here = if na {
                    digits_order(a, sa, ea, b, sb, eb)
                } else {
                    bytes_order(a, sa, ea, b, sb, eb)
                };
                match here {
                    NameOrder::Equal => {},
                    _ => {
                        return here;
                    },
                }
                i = ea;
                j = eb;
            },
        }
    }
}

/// Byte-by-byte order is reversed when the two sides are exchanged.
pub proof fn lemma_lex_order_reversed(a: Seq<u8>, i: int, ea: int, b: Seq<u8>, j: int, eb: int)
    ensures
        lex_order(b, j, eb, a, i, ea) == lex_order(a, i, ea, b, j, eb).reversed(),
    decreases ea - i,
{
    if i < ea && j < eb && a[i] == b[j] {
        lemma_lex_order_reversed(a, i + 1, ea, b, j + 1, eb);
    }
}

/// The natural order of two remainders is reversed when the two sides are
/// exchanged.
pub proof fn lemma_natural_order_from_reversed(a: Seq<u8>, i: int, b: Seq<u8>, j: int)
    requires
        0 <= i <= a.len(),
        0 <= j <= b.len(),
    ensures
        natural_order_from(b, j, a, i) == natural_order_from(a, i, b, j).reversed(),
    decreases a.len() - i,
{
    if i < a.len() && j < b.len() {
        if is_digit(a[i]) != is_digit(b[j]) {
            lemma_lex_order_reversed(a, i, a.len() as int, b, j, b.len() as int);
        } else {
            let ea = section_end(a, i);
            let eb = section_end(b, j);
            lemma_run_len_bound(a, i + 1, is_digit(a[i]));
            lemma_run_len_bound(b, j + 1, is_digit(b[j]));
            lemma_lex_order_reversed(a, i, ea, b, j, eb);
            lemma_natural_order_from_reversed(a, ea, b, eb);
        }
    }
}

/// Comparing `b` with `a` gives the reverse of comparing `a` with `b`; so a
/// name is equal to itself, and `Less` one way is `Greater` the other way.
pub proof fn lemma_natural_order_reversed(a: Seq<u8>, b: Seq<u8>)
    ensures
        natural_order(b, a) == natural_order(a, b).reversed(),
{
    lemma_natural_order_from_reversed(a, 0, b, 0);
}

/// Byte-by-byte order is transitive: from `a` not after `b` and `b` not after
/// `c` follows `a` not after `c`, and the two ends are equal only if all
/// three are.
pub proof fn lemma_lex_order_transitive(
    a: Seq<u8>,
    i: int,
    ea: int,
    b: Seq<u8>,
    j: int,
    eb: int,
    c: Seq<u8>,
    k: int,
    ec: int,
)
    requires
        lex_order(a, i, ea, b, j, eb) != NameOrder::Greater,
        lex_order(b, j, eb, c, k, ec) != NameOrder::Greater,
    ensures
        lex_order(a, i, ea, c, k, ec) != NameOrder::Greater,
        lex_order(a, i, ea, c, k, ec) == NameOrder::Equal ==> lex_order(a, i, ea, b, j, eb)
            == NameOrder::Equal && lex_order(b, j, eb, c, k, ec) == NameOrder::Equal,
    decreases ea - i,
{
    if i < ea && j < eb && k < ec && a[i] == b[j] && b[j] == c[k] {
        lemma_lex_order_transitive(a, i + 1, ea, b, j + 1, eb, c, k + 1, ec);
    }
}

/// The natural order of remainders is transitive: from `a` not after `b` and
/// `b` not after `c` follows `a` not after `c`, and the two ends are equal
/// only if all three are.
pub proof fn lemma_natural_order_from_transitive(
    a: Seq<u8>,
    i: int,
    b: Seq<u8>,
    j: int,
    c: Seq<u8>,
    k: int,
)
    requires
        0 <= i <= a.len(),
        0 <= j <= b.len(),
        0 <= k <= c.len(),
        natural_order_from(a, i, b, j) != NameOrder::Greater,
        natural_order_from(b, j, c, k) != NameOrder::Greater,
    ensures
        natural_order_from(a, i, c, k) != NameOrder::Greater,
        natural_order_from(a, i, c, k) == NameOrder::Equal ==> natural_order_from(a, i, b, j)
            == NameOrder::Equal && natural_order_from(b, j, c, k) == NameOrder::Equal,
    decreases a.len() - i,
{
    if i < a.len() && j < b.len() && k < c.len() {
        let da = is_digit(a[i]);
        let db = is_digit(b[j]);
        let dc = is_digit(c[k]);
        let ea = section_end(a, i);
        let eb = section_end(b, j);
        let ec = section_end(c, k);
        lemma_run_len_bound(a, i + 1, da);
        lemma_run_len_bound(b, j + 1, db);
        lemma_run_len_bound(c, k + 1, dc);
        if da == db && db == dc {
            if da {
                let va = run_value(a, i, ea);
                let vb = run_value(b, j, eb);
                let vc = run_value(c, k, ec);
                if va == vb && vb == vc {
                    lemma_natural_order_from_transitive(a, ea, b, eb, c, ec);
                }
            } else {
                lemma_lex_order_transitive(a, i, ea, b, j, eb, c, k, ec);
                if lex_order(a, i, ea, b, j, eb) == NameOrder::Equal && lex_order(
                    b,
                    j,
                    eb,
                    c,
                    k,
                    ec,
                ) == NameOrder::Equal {
                    lemma_natural_order_from_transitive(a, ea, b, eb, c, ec);
                }
            }
        } else {
            assert(natural_order_from(a, i, c, k) == NameOrder::Less);
        }
    }
}

/// The natural order is transitive: from `a` not after `b` and `b` not after
/// `c` follows `a` not after `c`; `a` and `c` are then equal only if all
/// three are. With the reversal this makes it a total order of names, in
/// which names that differ only in leading zeros count as equal.
pub proof fn lemma_natural_order_transitive(a: Seq<u8>, b: Seq<u8>, c: Seq<u8>)
    requires
        natural_order(a, b) != NameOrder::Greater,
        natural_order(b, c) != NameOrder::Greater,
    ensures
        natural_order(a, c) != NameOrder::Greater,
        natural_order(a, c) == NameOrder::Equal ==> natural_order(a, b) == NameOrder::Equal
            && natural_order(b, c) == NameOrder::Equal,
{
    lemma_natural_order_from_transitive(a, 0, b, 0, c, 0);
}

/// Every name is equal to itself.
pub proof fn lemma_natural_order_same(a: Seq<u8>)
    ensures
        natural_order(a, a) == NameOrder::Equal,
{
    lemma_natural_order_reversed(a, a);
}

/// The bytes of a name: its UTF-8 encoding. A byte of a character beyond
/// ASCII is never a digit, so runs of bytes are runs of characters.
pub open spec fn name_bytes(name: Seq<char>) -> Seq<u8> {
    encode_utf8(name)
}

/// The standard library's word for an order.
pub open spec fn to_ordering(o: NameOrder) -> Ordering {
    match o {
        NameOrder::Less => Ordering::Less,
        NameOrder::Equal => Ordering::Equal,
        NameOrder::Greater => Ordering::Greater,
    }
}

/// Compares two names in the natural order.
pub fn sort_name(a: &str, b: &str) -> (r: Ordering)
    ensures
        r == to_ordering(natural_order(name_bytes(a@), name_bytes(b@))),
{
    match natural_order_of(a.as_bytes(), b.as_bytes()) {
        NameOrder::Less => Ordering::Less,
        NameOrder::Equal => Ordering::Equal,
        NameOrder::Greater => Ordering::Greater,
    }
}

} // verus!
