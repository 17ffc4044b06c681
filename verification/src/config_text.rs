//! The textual form of the configuration: each top-level table is a
//! namespace, each `key = value` line a property.  Scalars read as
//! integers, booleans or floats; quoted text of the form `#rrggbb[aa]`
//! reads as a color and any other quoted text as a string, with `\"`,
//! `\\` and line-break escapes.  Arrays, nested tables and anything else
//! are rejected, never dropped.
//!
//! One deliberate narrowing, stated here because it is the format's one
//! departure from an ordinary configuration dialect: floats are carried
//! exactly or not at all.  Only tokens `<digits>.0` whose value is an
//! integer below 2^53 parse, and only such bit patterns serialize; a
//! fractional value (`0.5`) is a `Parse` / `Serialize` error, never a
//! rounded approximation.  Names and keys must be bare
//! (`A-Z a-z 0-9 _ -`).

use vstd::prelude::*;
use vstd::arithmetic::power2::{lemma2_to64, lemma_pow2_adds, lemma_pow2_strictly_increases,
    pow2};

use crate::config::{apply_ns_full, apply_nss_upto, apply_props_upto, entries_map, spec_insert,
    spec_merge, spec_touch, wf_entries, Config, ConfigMap, NsView, PropView};
use crate::value::{is_color_text, spec_parse_color, spec_ser_color, Color, Value, ValueView};

verus! {

/// Why a configuration text or value was refused.
#[derive(Debug, PartialEq, Eq)]
pub enum ConfigError {
    /// The text does not follow the format.
    Parse,
    /// The store holds a value the format cannot carry: a float that is
    /// not integer-valued below 2^53, or a namespace or key that is not
    /// bare.
    Serialize,
}

// ---------------------------------------------------------------------
// Characters and tokens.
// ---------------------------------------------------------------------
/// Horizontal whitespace (and the carriage return, so that files with
/// Windows line endings read the same).
pub open spec fn is_ws(c: char) -> bool {
    c == ' ' || c == '\t' || c == '\r'
}

/// A character allowed in a bare key or table name.
pub open spec fn is_bare_char(c: char) -> bool {
    ('a' <= c && c <= 'z') || ('A' <= c && c <= 'Z') || ('0' <= c && c <= '9') || c == '_' || c
        == '-'
}

/// A nonempty sequence of bare characters.
pub open spec fn is_bare(s: Seq<char>) -> bool {
    s.len() > 0 && forall|i: int| 0 <= i < s.len() ==> is_bare_char(#[trigger] s[i])
}

/// A decimal digit.
pub open spec fn is_digit(c: char) -> bool {
    '0' <= c && c <= '9'
}

/// The value of a decimal digit.
pub open spec fn digit_val(c: char) -> nat
    recommends
        is_digit(c),
{
    match c {
        '0' => 0nat,
        '1' => 1nat,
        '2' => 2nat,
        '3' => 3nat,
        '4' => 4nat,
        '5' => 5nat,
        '6' => 6nat,
        '7' => 7nat,
        '8' => 8nat,
        '9' => 9nat,
        _ => 0nat,
    }
}

/// The decimal digit with value `v` (for `v < 10`).
pub open spec fn digit_char(v: nat) -> char
    recommends
        v < 10,
{
    if v == 0 {
        '0'
    } else if v == 1 {
        '1'
    } else if v == 2 {
        '2'
    } else if v == 3 {
        '3'
    } else if v == 4 {
        '4'
    } else if v == 5 {
        '5'
    } else if v == 6 {
        '6'
    } else if v == 7 {
        '7'
    } else if v == 8 {
        '8'
    } else {
        '9'
    }
}

/// A nonempty digit run without a superfluous leading zero.
pub open spec fn is_digit_run(s: Seq<char>) -> bool {
    &&& s.len() > 0
    &&& forall|i: int| 0 <= i < s.len() ==> is_digit(#[trigger] s[i])
    &&& (s.len() > 1 ==> s[0] != '0')
}

/// The number a digit run denotes.
pub open spec fn digits_val(s: Seq<char>) -> nat
    decreases s.len(),
{
    if s.len() == 0 {
        0
    } else {
        digits_val(s.drop_last()) * 10 + digit_val(s.last())
    }
}

/// The decimal spelling of a number.
pub open spec fn dec_digits(n: nat) -> Seq<char>
    decreases n,
{
    if n < 10 {
        seq![digit_char(n)]
    } else {
        dec_digits(n / 10).push(digit_char(n % 10))
    }
}

/// Position of the first occurrence of `c`, or -1.
pub open spec fn first_idx(s: Seq<char>, c: char) -> int
    decreases s.len(),
{
    if s.len() == 0 {
        -1
    } else if s.first() == c {
        0
    } else {
        let r = first_idx(s.drop_first(), c);
        if r < 0 {
            -1
        } else {
            r + 1
        }
    }
}

/// The sequence without leading whitespace.
pub open spec fn trim_start(s: Seq<char>) -> Seq<char>
    decreases s.len(),
{
    if s.len() > 0 && is_ws(s.first()) {
        trim_start(s.drop_first())
    } else {
        s
    }
}

/// The sequence without trailing whitespace.
pub open spec fn trim_end(s: Seq<char>) -> Seq<char>
    decreases s.len(),
{
    if s.len() > 0 && is_ws(s.last()) {
        trim_end(s.drop_last())
    } else {
        s
    }
}

/// The sequence without leading and trailing whitespace.
pub open spec fn trim(s: Seq<char>) -> Seq<char> {
    trim_end(trim_start(s))
}

/// The text split at newlines; a text without one is a single line.
pub open spec fn split_lines(s: Seq<char>) -> Seq<Seq<char>>
    decreases s.len(),
{
    let i = first_idx(s, '\n');
    if i < 0 || i >= s.len() {
        seq![s]
    } else {
        seq![s.take(i)] + split_lines(s.skip(i + 1))
    }
}

// ---------------------------------------------------------------------
// Integer-valued floats: the 64-bit patterns this format can carry
// exactly.
// ---------------------------------------------------------------------
/// Normalizes a nonzero value below 2^53 upward into the 53-bit mantissa
/// window, lowering the biased exponent as it doubles.
pub open spec fn norm_up(m: u64, ef: u64) -> (u64, u64)
    recommends
        1 <= m < 0x20000000000000,
        53 <= ef,
    decreases 0x20000000000000 - m
        when 1 <= m
{
    if m >= 0x10000000000000 {
        (m, ef)
    } else {
        norm_up(((m * 2) as u64), ((ef - 1) as u64))
    }
}

/// The bit pattern of the 64-bit value equal to the integer `d`, for
/// `1 <= d < 2^53`.
pub open spec fn bits_of_uint(d: u64) -> u64
    recommends
        1 <= d < 0x20000000000000,
{
    let r = norm_up(d, 1075);
    (r.1 << 52) | (r.0 - 0x10000000000000) as u64
}

/// The integer a (sign-cleared) bit pattern denotes, when it denotes one
/// below 2^53: zero, or a normal value whose mantissa shifts out evenly.
pub open spec fn uint_of_bits(body: u64) -> Option<u64> {
    if body == 0 {
        Some(0u64)
    } else {
        let ef = body >> 52;
        let frac = body & 0xFFFFFFFFFFFFF;
        if ef == 0 || ef >= 0x7FF {
            None
        } else {
            let m = frac | 0x10000000000000;
            if ef == 1075 {
                Some(m)
            } else if ef > 1075 {
                None
            } else {
                let k = (1075 - ef) as u64;
                if k <= 52 && m & ((1u64 << k) - 1) as u64 == 0 {
                    Some(m >> k)
                } else {
                    None
                }
            }
        }
    }
}

/// The bit pattern a float token denotes: the integer part as a value,
/// with the sign bit from a leading minus.
pub open spec fn float_bits(neg: bool, d: u64) -> u64
    recommends
        d < 0x20000000000000,
{
    let body = if d == 0 {
        0u64
    } else {
        bits_of_uint(d)
    };
    if neg {
        body | 0x8000000000000000
    } else {
        body
    }
}

// ---------------------------------------------------------------------
// Quoted strings: escaping.
// ---------------------------------------------------------------------
/// The escaped form of one character in a quoted string: quote,
/// backslash and line breaks are written as two-character escapes, all
/// else stands for itself.
pub open spec fn esc_char(c: char) -> Seq<char> {
    if c == '"' {
        seq!['\\', '"']
    } else if c == '\\' {
        seq!['\\', '\\']
    } else if c == '\n' {
        seq!['\\', 'n']
    } else if c == '\r' {
        seq!['\\', 'r']
    } else {
        seq![c]
    }
}

/// The escaped body of a quoted string.
pub open spec fn escape(s: Seq<char>) -> Seq<char>
    decreases s.len(),
{
    if s.len() == 0 {
        Seq::empty()
    } else {
        esc_char(s.first()) + escape(s.drop_first())
    }
}

/// Reads an escaped body back; a lone backslash, an unknown escape or a
/// raw quote refuses the body.
pub open spec fn unescape(t: Seq<char>) -> Option<Seq<char>>
    decreases t.len(),
{
    if t.len() == 0 {
        Some(Seq::empty())
    } else if t.first() == '\\' {
        if t.len() >= 2 {
            let c = if t[1] == '"' {
                Some('"')
            } else if t[1] == '\\' {
                Some('\\')
            } else if t[1] == 'n' {
                Some('\n')
            } else if t[1] == 'r' {
                Some('\r')
            } else {
                None
            };
            match c {
                Some(ch) => match unescape(t.skip(2)) {
                    Some(rest) => Some(seq![ch] + rest),
                    None => None,
                },
                None => None,
            }
        } else {
            None
        }
    } else if t.first() == '"' {
        None
    } else {
        match unescape(t.drop_first()) {
            Some(rest) => Some(seq![t.first()] + rest),
            None => None,
        }
    }
}

// ---------------------------------------------------------------------
// Values.
// ---------------------------------------------------------------------
/// The value a (trimmed) token denotes, if any: `true`/`false`, a quoted
/// color or string, an integer, or an integer-valued float.
pub open spec fn spec_parse_value(t: Seq<char>) -> Option<ValueView> {
    if t == "true"@ {
        Some(ValueView::Boolean(true))
    } else if t == "false"@ {
        Some(ValueView::Boolean(false))
    } else if t.len() >= 2 && t.first() == '"' {
        if t.last() == '"' {
            match unescape(t.subrange(1, t.len() - 1)) {
                Some(s) => if is_color_text(s) {
                    Some(ValueView::Color(spec_parse_color(s)))
                } else {
                    Some(ValueView::Text(s))
                },
                None => None,
            }
        } else {
            None
        }
    } else {
        let neg = t.len() > 0 && t.first() == '-';
        let body = if neg {
            t.drop_first()
        } else {
            t
        };
        let dot = first_idx(body, '.');
        if dot < 0 {
            // integer
            if is_digit_run(body) && body.len() <= 19 {
                let n = digits_val(body);
                if neg {
                    if n <= 0x8000000000000000 {
                        Some(ValueView::Integer((0 - n as int) as i64))
                    } else {
                        None
                    }
                } else {
                    if n <= 0x7FFFFFFFFFFFFFFF {
                        Some(ValueView::Integer(n as i64))
                    } else {
                        None
                    }
                }
            } else {
                None
            }
        } else {
            // float: integer part, a dot, and a single zero
            let ip = body.take(dot);
            let fp = body.skip(dot + 1);
            if is_digit_run(ip) && ip.len() <= 19 && fp == seq!['0'] {
                let d = digits_val(ip);
                if d < 0x20000000000000 {
                    Some(ValueView::Float(float_bits(neg, d as u64)))
                } else {
                    None
                }
            } else {
                None
            }
        }
    }
}

// ---------------------------------------------------------------------
// Documents.
// ---------------------------------------------------------------------
/// The map a line list from position `i` on denotes, starting inside
/// namespace `ns` with `acc` already read; `None` on the first offending
/// line.
pub open spec fn spec_parse_lines(
    lines: Seq<Seq<char>>,
    i: int,
    ns: Option<Seq<char>>,
    acc: ConfigMap,
) -> Option<ConfigMap>
    decreases lines.len() - i,
{
    if i < 0 || i >= lines.len() {
        Some(acc)
    } else {
        let t = trim(lines[i]);
        if t.len() == 0 {
            spec_parse_lines(lines, i + 1, ns, acc)
        } else if t.first() == '#' {
            spec_parse_lines(lines, i + 1, ns, acc)
        } else if t.first() == '[' {
            let name = t.subrange(1, t.len() - 1);
            if t.len() >= 2 && t.last() == ']' && is_bare(name) {
                spec_parse_lines(lines, i + 1, Some(name), spec_touch(acc, name))
            } else {
                None
            }
        } else {
            match ns {
                None => None,
                Some(n) => {
                    let eq = first_idx(t, '=');
                    if eq < 0 {
                        None
                    } else {
                        let key = trim_end(t.take(eq));
                        let vt = trim_start(t.skip(eq + 1));
                        if is_bare(key) {
                            match spec_parse_value(vt) {
                                Some(v) => spec_parse_lines(
                                    lines,
                                    i + 1,
                                    ns,
                                    spec_insert(acc, n, key, v),
                                ),
                                None => None,
                            }
                        } else {
                            None
                        }
                    }
                },
            }
        }
    }
}

/// The map a whole text denotes, if it follows the format.
pub open spec fn spec_parse(s: Seq<char>) -> Option<ConfigMap> {
    spec_parse_lines(split_lines(s), 0, None, Map::empty())
}

// ---------------------------------------------------------------------
// Serialization.
// ---------------------------------------------------------------------
/// Whether the format can carry this value: colors, booleans, integers
/// and text always (text is escaped); floats only when integer-valued
/// below 2^53, the format's exact subset.
pub open spec fn value_serializable(v: ValueView) -> bool {
    match v {
        ValueView::Integer(_) => true,
        ValueView::Boolean(_) => true,
        ValueView::Color(_) => true,
        ValueView::Float(bits) => uint_of_bits(bits & 0x7FFFFFFFFFFFFFFF) is Some,
        ValueView::Text(_) => true,
    }
}

/// Whether the format can carry one namespace: a bare name, bare keys,
/// serializable values.
pub open spec fn ns_serializable(ns: NsView) -> bool {
    &&& is_bare(ns.name)
    &&& forall|j: int|
        0 <= j < ns.props.len() ==> is_bare((#[trigger] ns.props[j]).key) && value_serializable(
            ns.props[j].value,
        )
}

/// Whether the format can carry a whole store.
pub open spec fn config_serializable(es: Seq<NsView>) -> bool {
    forall|i: int| 0 <= i < es.len() ==> ns_serializable(#[trigger] es[i])
}

/// The canonical token of one value.
pub open spec fn ser_value(v: ValueView) -> Seq<char>
    recommends
        value_serializable(v),
{
    match v {
        ValueView::Integer(i) => {
            if i < 0 {
                seq!['-'] + dec_digits((0 - i as int) as nat)
            } else {
                dec_digits(i as nat)
            }
        },
        ValueView::Boolean(b) => if b {
            "true"@
        } else {
            "false"@
        },
        ValueView::Color(c) => seq!['"'] + spec_ser_color(c) + seq!['"'],
        ValueView::Text(s) => seq!['"'] + escape(s) + seq!['"'],
        ValueView::Float(bits) => {
            let digits = match uint_of_bits(bits & 0x7FFFFFFFFFFFFFFF) {
                Some(d) => dec_digits(d as nat),
                None => Seq::empty(),
            };
            if bits >> 63 == 1 {
                seq!['-'] + digits + ".0"@
            } else {
                digits + ".0"@
            }
        },
    }
}

/// The lines of one namespace's properties.
pub open spec fn ser_props(ps: Seq<PropView>) -> Seq<Seq<char>>
    decreases ps.len(),
{
    if ps.len() == 0 {
        Seq::empty()
    } else {
        ser_props(ps.drop_last()).push(ps.last().key + " = "@ + ser_value(ps.last().value))
    }
}

/// The lines of a whole store: each namespace's header, then its
/// properties.
pub open spec fn ser_lines(es: Seq<NsView>) -> Seq<Seq<char>>
    decreases es.len(),
{
    if es.len() == 0 {
        Seq::empty()
    } else {
        ser_lines(es.drop_last()) + (seq![seq!['['] + es.last().name + seq![']']] + ser_props(
            es.last().props,
        ))
    }
}

/// One text from a list of lines, each closed by a newline.
pub open spec fn join_lines(ls: Seq<Seq<char>>) -> Seq<char>
    decreases ls.len(),
{
    if ls.len() == 0 {
        Seq::empty()
    } else {
        join_lines(ls.drop_last()) + ls.last() + seq!['\n']
    }
}

/// The canonical text of a whole store.
pub open spec fn ser_config(es: Seq<NsView>) -> Seq<char> {
    join_lines(ser_lines(es))
}

// ---------------------------------------------------------------------
// Executable helpers on character vectors.
// ---------------------------------------------------------------------
fn subvec(v: &Vec<char>, a: usize, b: usize) -> (r: Vec<char>)
    requires
        a <= b <= v@.len(),
    ensures
        r@ == v@.subrange(a as int, b as int),
{
    let mut r: Vec<char> = Vec::new();
    let mut i = a;
    while i < b
        invariant
            a <= i <= b <= v@.len(),
            r@ == v@.subrange(a as int, i as int),
        decreases b - i,
    {
        r.push(v[i]);
        proof {
            assert(r@ =~= v@.subrange(a as int, i + 1));
        }
        i = i + 1;
    }
    r
}

fn vec_eq_str(v: &Vec<char>, s: &str) -> (r: bool)
    ensures
        r == (v@ == s@),
{
    let sc = crate::text::chars_of(s);
    let n = v.len();
    if n != sc.len() {
        return false;
    }
    for i in 0..n
        invariant
            n == v@.len(),
            n == sc@.len(),
            sc@ == s@,
            forall|k: int| 0 <= k < i ==> v@[k] == sc@[k],
    {
        if v[i] != sc[i] {
            return false;
        }
    }
    proof {
        assert(v@ =~= s@);
    }
    true
}

proof fn lemma_trim_start_skip(s: Seq<char>, a: int)
    requires
        0 <= a <= s.len(),
        forall|j: int| 0 <= j < a ==> is_ws(#[trigger] s[j]),
        a < s.len() ==> !is_ws(s[a]),
    ensures
        trim_start(s) == s.skip(a),
    decreases a,
{
    if a == 0 {
        assert(s.skip(0) =~= s);
    } else {
        assert(is_ws(s.first()));
        assert(forall|j: int|
            0 <= j < a - 1 ==> is_ws(#[trigger] s.drop_first()[j]));
        lemma_trim_start_skip(s.drop_first(), a - 1);
        assert(s.drop_first().skip(a - 1) =~= s.skip(a));
    }
}

proof fn lemma_trim_end_take(s: Seq<char>, b: int)
    requires
        0 <= b <= s.len(),
        forall|j: int| b <= j < s.len() ==> is_ws(#[trigger] s[j]),
        b > 0 ==> !is_ws(s[b - 1]),
    ensures
        trim_end(s) == s.take(b),
    decreases s.len() - b,
{
    if b == s.len() {
        assert(s.take(b) =~= s);
    } else {
        assert(is_ws(s.last()));
        assert(forall|j: int|
            b <= j < s.drop_last().len() ==> is_ws(#[trigger] s.drop_last()[j]));
        lemma_trim_end_take(s.drop_last(), b);
        assert(s.drop_last().take(b) =~= s.take(b));
    }
}

fn trim_vec(v: &Vec<char>) -> (r: Vec<char>)
    ensures
        r@ == trim(v@),
{
    let n = v.len();
    let mut a: usize = 0;
    while a < n && (v[a] == ' ' || v[a] == '\t' || v[a] == '\r')
        invariant
            a <= n,
            n == v@.len(),
            forall|j: int| 0 <= j < a ==> is_ws(#[trigger] v@[j]),
        decreases n - a,
    {
        a = a + 1;
    }
    let mut b: usize = n;
    while b > a && (v[b - 1] == ' ' || v[b - 1] == '\t' || v[b - 1] == '\r')
        invariant
            a <= b <= n,
            n == v@.len(),
            forall|j: int| 0 <= j < a ==> is_ws(#[trigger] v@[j]),
            forall|j: int| b <= j < n ==> is_ws(#[trigger] v@[j]),
        decreases b,
    {
        b = b - 1;
    }
    let r = subvec(v, a, b);
    proof {
        lemma_trim_start_skip(v@, a as int);
        let t = v@.skip(a as int);
        assert(forall|j: int|
            b - a <= j < t.len() ==> is_ws(#[trigger] t[j]));
        if b > a {
            assert(!is_ws(t[b - a - 1]));
        }
        lemma_trim_end_take(t, b - a);
        assert(t.take(b - a) =~= v@.subrange(a as int, b as int));
    }
    r
}

proof fn lemma_first_idx_at(s: Seq<char>, c: char, i: int)
    requires
        0 <= i < s.len(),
        s[i] == c,
        forall|j: int| 0 <= j < i ==> s[j] != c,
    ensures
        first_idx(s, c) == i,
    decreases i,
{
    if i > 0 {
        assert(s.first() != c);
        assert(s.drop_first()[i - 1] == c);
        assert(forall|j: int| 0 <= j < i - 1 ==> #[trigger] s.drop_first()[j] != c);
        lemma_first_idx_at(s.drop_first(), c, i - 1);
    }
}

proof fn lemma_first_idx_none(s: Seq<char>, c: char)
    requires
        forall|j: int| 0 <= j < s.len() ==> s[j] != c,
    ensures
        first_idx(s, c) == -1,
    decreases s.len(),
{
    if s.len() > 0 {
        assert(forall|j: int| 0 <= j < s.drop_first().len() ==> #[trigger] s.drop_first()[j] != c);
        lemma_first_idx_none(s.drop_first(), c);
    }
}

fn find_char_in(v: &Vec<char>, c: char) -> (r: Option<usize>)
    ensures
        match r {
            Some(i) => first_idx(v@, c) == i as int && i < v@.len(),
            None => first_idx(v@, c) == -1,
        },
{
    let n = v.len();
    for i in 0..n
        invariant
            n == v@.len(),
            forall|j: int| 0 <= j < i ==> v@[j] != c,
    {
        if v[i] == c {
            proof {
                lemma_first_idx_at(v@, c, i as int);
            }
            return Some(i);
        }
    }
    proof {
        lemma_first_idx_none(v@, c);
    }
    None
}

fn is_bare_vec(v: &Vec<char>) -> (r: bool)
    ensures
        r == is_bare(v@),
{
    let n = v.len();
    if n == 0 {
        return false;
    }
    for i in 0..n
        invariant
            n == v@.len(),
            n > 0,
            forall|k: int| 0 <= k < i ==> is_bare_char(#[trigger] v@[k]),
    {
        let c = v[i];
        let ok = ('a' <= c && c <= 'z') || ('A' <= c && c <= 'Z') || ('0' <= c && c <= '9') || c
            == '_' || c == '-';
        if !ok {
            return false;
        }
    }
    true
}

// ---------------------------------------------------------------------
// Numbers, executable.
// ---------------------------------------------------------------------
/// Ten to the given power.
pub open spec fn pow10(n: nat) -> nat
    decreases n,
{
    if n == 0 {
        1
    } else {
        10 * pow10((n - 1) as nat)
    }
}

proof fn lemma_pow10_19()
    ensures
        pow10(19) == 10000000000000000000,
{
    reveal_with_fuel(pow10, 20);
}

proof fn lemma_pow10_mono(a: nat, b: nat)
    requires
        a <= b,
    ensures
        pow10(a) <= pow10(b),
    decreases b,
{
    if a < b {
        lemma_pow10_mono(a, (b - 1) as nat);
    }
}

fn digit_of(c: char) -> (r: Option<u64>)
    ensures
        r is Some <==> is_digit(c),
        r matches Some(d) ==> d == digit_val(c) && d < 10,
{
    match c {
        '0' => Some(0u64),
        '1' => Some(1u64),
        '2' => Some(2u64),
        '3' => Some(3u64),
        '4' => Some(4u64),
        '5' => Some(5u64),
        '6' => Some(6u64),
        '7' => Some(7u64),
        '8' => Some(8u64),
        '9' => Some(9u64),
        _ => None,
    }
}

fn char_of_digit(v: u64) -> (c: char)
    requires
        v < 10,
    ensures
        c == digit_char(v as nat),
{
    match v {
        0u64 => '0',
        1u64 => '1',
        2u64 => '2',
        3u64 => '3',
        4u64 => '4',
        5u64 => '5',
        6u64 => '6',
        7u64 => '7',
        8u64 => '8',
        _ => '9',
    }
}

/// Reads a run of at most 19 digits as a number.
fn digits_u64(v: &Vec<char>) -> (r: Option<u64>)
    requires
        v@.len() <= 19,
    ensures
        r is Some <==> forall|k: int| 0 <= k < v@.len() ==> is_digit(#[trigger] v@[k]),
        r matches Some(n) ==> n == digits_val(v@) && n < 10000000000000000000,
{
    let mut m: u64 = 0;
    let n = v.len();
    proof {
        lemma_pow10_19();
    }
    for i in 0..n
        invariant
            n == v@.len(),
            n <= 19,
            forall|k: int| 0 <= k < i ==> is_digit(#[trigger] v@[k]),
            m == digits_val(v@.take(i as int)),
            m < pow10(i as nat),
            pow10(19) == 10000000000000000000,
    {
        match digit_of(v[i]) {
            Some(d) => {
                proof {
                    lemma_pow10_mono((i + 1) as nat, 19);
                    assert(pow10((i + 1) as nat) == 10 * pow10(i as nat));
                    assert(v@.take(i + 1).drop_last() =~= v@.take(i as int));
                }
                m = m * 10 + d;
            },
            None => {
                return None;
            },
        }
    }
    proof {
        assert(v@.take(n as int) =~= v@);
        lemma_pow10_mono(n as nat, 19);
    }
    Some(m)
}

/// Appends the decimal spelling of a number.
fn push_dec(out: &mut Vec<char>, n: u64)
    ensures
        final(out)@ == old(out)@ + dec_digits(n as nat),
    decreases n,
{
    if n < 10 {
        out.push(char_of_digit(n));
        proof {
            assert(final(out)@ =~= old(out)@ + dec_digits(n as nat));
        }
    } else {
        push_dec(out, n / 10);
        out.push(char_of_digit(n % 10));
        proof {
            assert(final(out)@ =~= old(out)@ + dec_digits(n as nat));
        }
    }
}

/// Computes the bit pattern of a float token's value.
fn float_bits_exec(neg: bool, d: u64) -> (r: u64)
    requires
        d < 0x20000000000000,
    ensures
        r == float_bits(neg, d),
{
    if d == 0 {
        proof {
            assert(0u64 | 0x8000000000000000u64 == 0x8000000000000000u64) by (bit_vector);
        }
        if neg {
            0x8000000000000000u64
        } else {
            0u64
        }
    } else {
        let mut m = d;
        let mut ef: u64 = 1075;
        let ghost mut j: nat = 0nat;
        proof {
            lemma2_to64();
            assert(pow2(0) == 1);
            assert(m as nat == (d as nat) * pow2(0));
        }
        while m < 0x10000000000000
            invariant
                1 <= m < 0x20000000000000,
                1 <= d < 0x20000000000000,
                m as nat == (d as nat) * pow2(j),
                ef as int == 1075 - j,
                j <= 52,
                norm_up(d, 1075) == norm_up(m, ef),
            decreases 0x20000000000000 - m,
        {
            proof {
                lemma2_to64();
                assert(pow2(j + 1) == 2 * pow2(j)) by {
                    lemma_pow2_adds(j, 1);
                }
                assert((m * 2) as nat == (d as nat) * pow2(j + 1)) by (nonlinear_arith)
                    requires
                        m as nat == (d as nat) * pow2(j),
                        pow2(j + 1) == 2 * pow2(j),
                        m < 0x10000000000000,
                ;
                if j + 1 > 52 {
                    assert(pow2(j) >= pow2(52)) by {
                        if j > 52 {
                            lemma_pow2_strictly_increases(52, j);
                        }
                    }
                    assert(m as nat >= pow2(52)) by (nonlinear_arith)
                        requires
                            m as nat == (d as nat) * pow2(j),
                            d >= 1,
                            pow2(j) >= pow2(52),
                    ;
                    vstd::arithmetic::power2::lemma2_to64_rest();
                    assert(pow2(52) == 0x10000000000000);
                    assert(false);
                }
            }
            m = m * 2;
            ef = ef - 1;
            proof {
                j = j + 1;
            }
        }
        let body = (ef << 52u64) | (m - 0x10000000000000);
        proof {
            assert(norm_up(d, 1075) == (m, ef));
            assert(body == bits_of_uint(d));
        }
        if neg {
            body | 0x8000000000000000u64
        } else {
            body
        }
    }
}

/// Reads a (sign-cleared) bit pattern back as an integer, when it denotes
/// one.
fn uint_of_bits_exec(body: u64) -> (r: Option<u64>)
    ensures
        r == uint_of_bits(body),
{
    if body == 0 {
        Some(0u64)
    } else {
        let ef = body >> 52u64;
        let frac = body & 0xFFFFFFFFFFFFFu64;
        if ef == 0 || ef >= 0x7FF {
            None
        } else {
            let m = frac | 0x10000000000000u64;
            if ef == 1075 {
                Some(m)
            } else if ef > 1075 {
                None
            } else {
                let k = 1075 - ef;
                if k > 52 {
                    None
                } else {
                    proof {
                        assert(1u64 << k >= 1) by (bit_vector)
                            requires
                                k <= 52u64,
                        ;
                    }
                    if m & (((1u64 << k) - 1) as u64) == 0 {
                        Some(m >> k)
                    } else {
                        None
                    }
                }
            }
        }
    }
}

// ---------------------------------------------------------------------
// Values, executable.
// ---------------------------------------------------------------------
/// Reads an escaped quoted-string body back.
fn unescape_vec(v: &Vec<char>) -> (r: Option<Vec<char>>)
    ensures
        r is Some <==> unescape(v@) is Some,
        r matches Some(o) ==> Some(o@) == unescape(v@),
{
    let n = v.len();
    let mut out: Vec<char> = Vec::new();
    let mut i: usize = 0;
    proof {
        assert(v@.skip(0) =~= v@);
    }
    while i < n
        invariant
            i <= n,
            n == v@.len(),
            unescape(v@) == (match unescape(v@.skip(i as int)) {
                Some(rest) => Some(out@ + rest),
                None => None,
            }),
        decreases n - i,
    {
        let rest = Ghost(v@.skip(i as int));
        let c = v[i];
        proof {
            assert(rest@.first() == c);
        }
        if c == '\\' {
            if i + 1 < n {
                let d = v[i + 1];
                proof {
                    assert(rest@[1] == d);
                    assert(rest@.skip(2) =~= v@.skip(i + 2));
                }
                let ch: char = if d == '"' {
                    '"'
                } else if d == '\\' {
                    '\\'
                } else if d == 'n' {
                    '\n'
                } else if d == 'r' {
                    '\r'
                } else {
                    proof {
                        assert(unescape(rest@) is None);
                    }
                    return None;
                };
                let pre = Ghost(out@);
                out.push(ch);
                proof {
                    assert(unescape(rest@) == (match unescape(v@.skip(i + 2)) {
                        Some(r2) => Some(seq![ch] + r2),
                        None => None,
                    }));
                    if unescape(v@.skip(i + 2)) is Some {
                        assert(pre@ + (seq![ch] + unescape(v@.skip(i + 2))->0) =~= out@
                            + unescape(v@.skip(i + 2))->0);
                    }
                }
                i = i + 2;
            } else {
                proof {
                    assert(rest@.len() == 1);
                    assert(unescape(rest@) is None);
                }
                return None;
            }
        } else if c == '"' {
            proof {
                assert(unescape(rest@) is None);
            }
            return None;
        } else {
            let pre = Ghost(out@);
            out.push(c);
            proof {
                assert(rest@.drop_first() =~= v@.skip(i + 1));
                assert(unescape(rest@) == (match unescape(v@.skip(i + 1)) {
                    Some(r2) => Some(seq![c] + r2),
                    None => None,
                }));
                if unescape(v@.skip(i + 1)) is Some {
                    assert(pre@ + (seq![c] + unescape(v@.skip(i + 1))->0) =~= out@ + unescape(
                        v@.skip(i + 1),
                    )->0);
                }
            }
            i = i + 1;
        }
    }
    proof {
        assert(v@.skip(n as int) =~= Seq::<char>::empty());
        assert(out@ + Seq::<char>::empty() =~= out@);
    }
    Some(out)
}

proof fn lemma_escape_snoc(s: Seq<char>, c: char)
    ensures
        escape(s.push(c)) == escape(s) + esc_char(c),
    decreases s.len(),
{
    if s.len() == 0 {
        assert(s.push(c).drop_first() =~= Seq::<char>::empty());
        assert(escape(Seq::<char>::empty()) =~= Seq::<char>::empty());
        assert(escape(s.push(c)) =~= escape(s) + esc_char(c));
    } else {
        assert(s.push(c).first() == s.first());
        assert(s.push(c).drop_first() =~= s.drop_first().push(c));
        lemma_escape_snoc(s.drop_first(), c);
        assert(escape(s.push(c)) =~= escape(s) + esc_char(c));
    }
}

/// Writes the escaped body of a quoted string.
fn escape_vec(v: &Vec<char>) -> (r: Vec<char>)
    ensures
        r@ == escape(v@),
{
    let n = v.len();
    let mut out: Vec<char> = Vec::new();
    proof {
        assert(v@.take(0) =~= Seq::<char>::empty());
        assert(out@ =~= escape(v@.take(0)));
    }
    for i in 0..n
        invariant
            n == v@.len(),
            out@ == escape(v@.take(i as int)),
    {
        let c = v[i];
        let pre = Ghost(out@);
        if c == '"' {
            out.push('\\');
            out.push('"');
        } else if c == '\\' {
            out.push('\\');
            out.push('\\');
        } else if c == '\n' {
            out.push('\\');
            out.push('n');
        } else if c == '\r' {
            out.push('\\');
            out.push('r');
        } else {
            out.push(c);
        }
        proof {
            assert(out@ =~= pre@ + esc_char(c));
            assert(v@.take(i + 1).drop_last() =~= v@.take(i as int));
            lemma_escape_snoc(v@.take(i as int), c);
            assert(v@.take(i as int).push(c) =~= v@.take(i + 1));
        }
    }
    proof {
        assert(v@.take(n as int) =~= v@);
    }
    out
}

proof fn lemma_escape_no_break(s: Seq<char>)
    ensures
        forall|j: int|
            0 <= j < escape(s).len() ==> #[trigger] escape(s)[j] != '\n' && escape(s)[j]
                != '\r',
    decreases s.len(),
{
    if s.len() > 0 {
        lemma_escape_no_break(s.drop_first());
        let hd = esc_char(s.first());
        let tl = escape(s.drop_first());
        assert(escape(s) == hd + tl);
        assert(forall|j: int|
            0 <= j < hd.len() ==> #[trigger] hd[j] != '\n' && hd[j] != '\r');
        assert forall|j: int|
            0 <= j < escape(s).len() implies #[trigger] escape(s)[j] != '\n' && escape(s)[j]
                != '\r' by {
            if j < hd.len() {
                assert(escape(s)[j] == hd[j]);
            } else {
                assert(escape(s)[j] == tl[j - hd.len()]);
            }
        }
    }
}

proof fn lemma_unescape_plain(s: Seq<char>)
    requires
        forall|j: int| 0 <= j < s.len() ==> #[trigger] s[j] != '"' && s[j] != '\\',
    ensures
        unescape(s) == Some(s),
    decreases s.len(),
{
    if s.len() > 0 {
        assert(forall|j: int|
            0 <= j < s.drop_first().len() ==> #[trigger] s.drop_first()[j] != '"'
                && s.drop_first()[j] != '\\');
        lemma_unescape_plain(s.drop_first());
        assert(seq![s.first()] + s.drop_first() =~= s);
    }
}

proof fn lemma_unescape_escape(s: Seq<char>)
    ensures
        unescape(escape(s)) == Some(s),
    decreases s.len(),
{
    if s.len() > 0 {
        lemma_unescape_escape(s.drop_first());
        let c = s.first();
        let e = escape(s);
        assert(e == esc_char(c) + escape(s.drop_first()));
        if c == '"' || c == '\\' || c == '\n' || c == '\r' {
            assert(esc_char(c).len() == 2);
            assert(e.first() == '\\');
            assert(e.len() >= 2 && e[1] == esc_char(c)[1]);
            assert(e.skip(2) =~= escape(s.drop_first()));
            assert(seq![c] + s.drop_first() =~= s);
        } else {
            assert(esc_char(c) =~= seq![c]);
            assert(e.first() == c);
            assert(e.drop_first() =~= escape(s.drop_first()));
            assert(seq![c] + s.drop_first() =~= s);
        }
    } else {
        assert(escape(s) =~= Seq::<char>::empty());
    }
}

/// Reads a trimmed token as a value.
fn parse_value_vec(t: &Vec<char>) -> (r: Option<Value>)
    ensures
        r is Some <==> spec_parse_value(t@) is Some,
        r matches Some(v) ==> Some(v@) == spec_parse_value(t@),
{
    if vec_eq_str(t, "true") {
        return Some(Value::Boolean(true));
    }
    if vec_eq_str(t, "false") {
        return Some(Value::Boolean(false));
    }
    let n = t.len();
    if n >= 2 && t[0] == '"' {
        if t[n - 1] != '"' {
            return None;
        }
        let inner = subvec(t, 1, n - 1);
        match unescape_vec(&inner) {
            None => {
                return None;
            },
            Some(s) => {
                match crate::value::parse_color(&s) {
                    Some(c) => {
                        return Some(Value::Color(c));
                    },
                    None => {
                        return Some(Value::Text(crate::text::string_of(&s)));
                    },
                }
            },
        }
    }
    let neg = n > 0 && t[0] == '-';
    let s0: usize = if neg {
        1
    } else {
        0
    };
    let body = subvec(t, s0, n);
    proof {
        if neg {
            assert(body@ =~= t@.drop_first());
        } else {
            assert(body@ =~= t@);
        }
    }
    match find_char_in(&body, '.') {
        None => {
            // integer
            let bn = body.len();
            if bn == 0 || bn > 19 {
                return None;
            }
            if bn > 1 && body[0] == '0' {
                return None;
            }
            match digits_u64(&body) {
                None => None,
                Some(v) => {
                    if neg {
                        if v <= 0x8000000000000000u64 {
                            let i: i64 = if v == 0x8000000000000000u64 {
                                i64::MIN
                            } else {
                                -(v as i64)
                            };
                            Some(Value::Integer(i))
                        } else {
                            None
                        }
                    } else {
                        if v <= 0x7FFFFFFFFFFFFFFFu64 {
                            Some(Value::Integer(v as i64))
                        } else {
                            None
                        }
                    }
                },
            }
        },
        Some(dot) => {
            // float: integer part, a dot, a single zero
            let ip = subvec(&body, 0, dot);
            let fp = subvec(&body, dot + 1, body.len());
            if !(fp.len() == 1 && fp[0] == '0') {
                return None;
            }
            proof {
                assert(fp@ =~= seq!['0']);
            }
            let bn = ip.len();
            if bn == 0 || bn > 19 {
                return None;
            }
            if bn > 1 && ip[0] == '0' {
                return None;
            }
            match digits_u64(&ip) {
                None => None,
                Some(d) => {
                    if d < 0x20000000000000u64 {
                        Some(Value::Float(float_bits_exec(neg, d)))
                    } else {
                        None
                    }
                },
            }
        },
    }
}

// ---------------------------------------------------------------------
// Lines, executable.
// ---------------------------------------------------------------------
/// The character sequences of a vector of lines.
pub open spec fn lines_views(ls: Seq<Vec<char>>) -> Seq<Seq<char>> {
    ls.map_values(|l: Vec<char>| l@)
}

proof fn lemma_split_no_nl(a: Seq<char>)
    requires
        forall|j: int| 0 <= j < a.len() ==> a[j] != '\n',
    ensures
        split_lines(a) == seq![a],
{
    lemma_first_idx_none(a, '\n');
}

proof fn lemma_split_concat(a: Seq<char>, b: Seq<char>)
    requires
        forall|j: int| 0 <= j < a.len() ==> a[j] != '\n',
    ensures
        split_lines(a + seq!['\n'] + b) == seq![a] + split_lines(b),
{
    let s = a + seq!['\n'] + b;
    assert(s[a.len() as int] == '\n');
    assert(forall|j: int| 0 <= j < a.len() ==> s[j] == a[j] && s[j] != '\n');
    lemma_first_idx_at(s, '\n', a.len() as int);
    assert(s.take(a.len() as int) =~= a);
    assert(s.skip(a.len() as int + 1) =~= b);
}

proof fn lemma_trim_start_first(s: Seq<char>)
    ensures
        trim_start(s).len() > 0 ==> !is_ws(trim_start(s).first()),
        trim_start(s).len() > 0 ==> trim_start(s).last() == s.last(),
        trim_start(s).len() <= s.len(),
    decreases s.len(),
{
    if s.len() > 0 && is_ws(s.first()) {
        lemma_trim_start_first(s.drop_first());
        if trim_start(s).len() > 0 {
            assert(s.drop_first().last() == s.last());
        }
    }
}

proof fn lemma_trim_end_props(s: Seq<char>)
    ensures
        trim_end(s).len() > 0 ==> !is_ws(trim_end(s).last()),
        trim_end(s).len() > 0 ==> trim_end(s).first() == s.first(),
        trim_end(s).len() <= s.len(),
    decreases s.len(),
{
    if s.len() > 0 && is_ws(s.last()) {
        lemma_trim_end_props(s.drop_last());
        if trim_end(s).len() > 0 {
            assert(s.drop_last().first() == s.first());
        }
    }
}

/// A trimmed sequence has no whitespace at either end.
proof fn lemma_trim_clean(s: Seq<char>)
    ensures
        trim(s).len() > 0 ==> !is_ws(trim(s).first()) && !is_ws(trim(s).last()),
{
    lemma_trim_start_first(s);
    lemma_trim_end_props(trim_start(s));
}

impl Config {
    /// Reads a whole configuration text; an offending line refuses the
    /// whole text.
    pub fn parse(text: &str) -> (r: Result<Config, ConfigError>)
        ensures
            r is Ok <==> spec_parse(text@) is Some,
            r matches Ok(c) ==> Some(c@) == spec_parse(text@) && c.wf(),
            r matches Err(e) ==> e == ConfigError::Parse,
    {
        let chars = crate::text::chars_of(text);
        let n = chars.len();
        let mut lines: Vec<Vec<char>> = Vec::new();
        let mut cur: Vec<char> = Vec::new();
        proof {
            assert(lines_views(lines@) =~= Seq::<Seq<char>>::empty());
            assert(cur@ + text@.skip(0) =~= text@);
            assert(lines_views(lines@) + split_lines(cur@ + text@.skip(0)) =~= split_lines(
                text@,
            ));
        }
        for i in 0..n
            invariant
                n == chars@.len(),
                chars@ == text@,
                forall|k: int| 0 <= k < cur@.len() ==> cur@[k] != '\n',
                split_lines(text@) == lines_views(lines@) + split_lines(
                    cur@ + text@.skip(i as int),
                ),
        {
            if chars[i] == '\n' {
                proof {
                    lemma_split_concat(cur@, text@.skip(i + 1));
                    assert(cur@ + text@.skip(i as int) =~= cur@ + seq!['\n'] + text@.skip(i + 1));
                }
                let ll = Ghost(lines_views(lines@));
                let cv = Ghost(cur@);
                lines.push(cur);
                cur = Vec::new();
                proof {
                    assert(lines_views(lines@) =~= ll@.push(cv@));
                    assert(cur@ + text@.skip(i + 1) =~= text@.skip(i + 1));
                    assert(lines_views(lines@) + split_lines(text@.skip(i + 1)) =~= ll@ + (
                    seq![cv@] + split_lines(text@.skip(i + 1))));
                }
            } else {
                let cv = Ghost(cur@);
                cur.push(chars[i]);
                proof {
                    assert(cur@ + text@.skip(i + 1) =~= cv@ + text@.skip(i as int));
                }
            }
        }
        proof {
            assert(cur@ + text@.skip(n as int) =~= cur@);
            lemma_split_no_nl(cur@);
        }
        let ll = Ghost(lines_views(lines@));
        let cv = Ghost(cur@);
        lines.push(cur);
        proof {
            assert(lines_views(lines@) =~= ll@.push(cv@));
            assert(lines_views(lines@) =~= split_lines(text@));
        }
        let lv = Ghost(lines_views(lines@));
        let mut cfg = Config::new();
        let mut cur_ns: Option<String> = None;
        let nl = lines.len();
        proof {
            assert(spec_parse(text@) == spec_parse_lines(lv@, 0, None::<Seq<char>>, cfg@));
        }
        for li in 0..nl
            invariant
                nl == lines@.len(),
                lv@ == lines_views(lines@),
                lv@ == split_lines(text@),
                lv@.len() == nl,
                cfg.wf(),
                spec_parse(text@) == spec_parse_lines(
                    lv@,
                    li as int,
                    match cur_ns {
                        Some(ref s) => Some(s@),
                        None => None,
                    },
                    cfg@,
                ),
        {
            let t = trim_vec(&lines[li]);
            proof {
                assert(lines@[li as int]@ == lv@[li as int]);
                assert(t@ == trim(lv@[li as int]));
                lemma_trim_clean(lv@[li as int]);
            }
            let tn = t.len();
            if tn == 0 {
            } else if t[0] == '#' {
            } else if t[0] == '[' {
                if tn >= 2 && t[tn - 1] == ']' {
                    let name = subvec(&t, 1, tn - 1);
                    if is_bare_vec(&name) {
                        let name_s = crate::text::string_of(&name);
                        cfg.ensure_ns(name_s.as_str());
                        cur_ns = Some(name_s);
                    } else {
                        proof {
                            assert(spec_parse(text@) is None);
                        }
                        return Err(ConfigError::Parse);
                    }
                } else {
                    proof {
                        assert(spec_parse(text@) is None);
                    }
                    return Err(ConfigError::Parse);
                }
            } else {
                let found_eq = find_char_in(&t, '=');
                match found_eq {
                    None => {
                        proof {
                            assert(spec_parse(text@) is None);
                        }
                        return Err(ConfigError::Parse);
                    },
                    Some(eq) => {
                        let keyraw = subvec(&t, 0, eq);
                        let keyv = trim_vec(&keyraw);
                        proof {
                            // the line is trimmed, so the key part has no
                            // leading whitespace
                            if eq > 0 {
                                assert(keyraw@.first() == t@.first());
                                assert(trim_start(keyraw@) == keyraw@);
                            } else {
                                assert(keyraw@ =~= Seq::<char>::empty());
                            }
                            assert(keyv@ == trim_end(t@.take(eq as int)));
                        }
                        let vraw = subvec(&t, eq + 1, tn);
                        let vt = trim_vec(&vraw);
                        proof {
                            // and the value part has no trailing whitespace
                            lemma_trim_start_first(vraw@);
                            if trim_start(vraw@).len() > 0 {
                                assert(vraw@.last() == t@.last());
                                assert(trim_end(trim_start(vraw@)) == trim_start(vraw@));
                            } else {
                                assert(trim_end(trim_start(vraw@)) =~= trim_start(vraw@));
                            }
                            assert(vt@ == trim_start(t@.skip(eq + 1)));
                        }
                        if is_bare_vec(&keyv) {
                            match cur_ns {
                                None => {
                                    proof {
                                        assert(spec_parse(text@) is None);
                                    }
                                    return Err(ConfigError::Parse);
                                },
                                Some(ref nsname) => {
                                    match parse_value_vec(&vt) {
                                        Some(v) => {
                                            let key_s = crate::text::string_of(&keyv);
                                            cfg.insert(nsname.as_str(), key_s.as_str(), v);
                                        },
                                        None => {
                                            proof {
                                                assert(spec_parse(text@) is None);
                                            }
                                            return Err(ConfigError::Parse);
                                        },
                                    }
                                },
                            }
                        } else {
                            proof {
                                assert(spec_parse(text@) is None);
                            }
                            return Err(ConfigError::Parse);
                        }
                    },
                }
            }
        }
        proof {
            assert(spec_parse(text@) == Some(cfg@));
        }
        Ok(cfg)
    }
}

// ---------------------------------------------------------------------
// Serialization, executable.
// ---------------------------------------------------------------------
proof fn lemma_join_push(ls: Seq<Seq<char>>, l: Seq<char>)
    ensures
        join_lines(ls.push(l)) == join_lines(ls) + l + seq!['\n'],
{
    assert(ls.push(l).drop_last() =~= ls);
}

/// Writes one value in its canonical token form.
fn ser_value_vec(v: &Value) -> (r: Result<Vec<char>, ConfigError>)
    ensures
        r is Ok <==> value_serializable(v@),
        r matches Ok(s) ==> s@ == ser_value(v@),
        r matches Err(e) ==> e == ConfigError::Serialize,
{
    match v {
        Value::Integer(i) => {
            let mut out: Vec<char> = Vec::new();
            if *i < 0 {
                out.push('-');
                let mag: u64 = if *i == i64::MIN {
                    0x8000000000000000u64
                } else {
                    (-*i) as u64
                };
                push_dec(&mut out, mag);
                proof {
                    assert(out@ =~= seq!['-'] + dec_digits((0 - *i as int) as nat));
                }
            } else {
                push_dec(&mut out, *i as u64);
                proof {
                    assert(out@ =~= dec_digits(*i as nat));
                }
            }
            Ok(out)
        },
        Value::Boolean(b) => {
            if *b {
                Ok(crate::text::chars_of("true"))
            } else {
                Ok(crate::text::chars_of("false"))
            }
        },
        Value::Color(c) => {
            let mut out: Vec<char> = Vec::new();
            out.push('"');
            let mut body = crate::value::ser_color(*c);
            out.append(&mut body);
            out.push('"');
            proof {
                assert(out@ =~= seq!['"'] + spec_ser_color(*c) + seq!['"']);
            }
            Ok(out)
        },
        Value::Text(s) => {
            let cs = crate::text::chars_of(s.as_str());
            let body = escape_vec(&cs);
            let mut out: Vec<char> = Vec::new();
            out.push('"');
            let mut b = body;
            out.append(&mut b);
            out.push('"');
            proof {
                assert(out@ =~= seq!['"'] + escape(s@) + seq!['"']);
            }
            Ok(out)
        },
        Value::Float(bits) => {
            let body_bits = *bits & 0x7FFFFFFFFFFFFFFFu64;
            match uint_of_bits_exec(body_bits) {
                None => Err(ConfigError::Serialize),
                Some(d) => {
                    let mut out: Vec<char> = Vec::new();
                    if *bits >> 63u64 == 1 {
                        out.push('-');
                        push_dec(&mut out, d);
                        proof {
                            assert(out@ =~= seq!['-'] + dec_digits(d as nat));
                        }
                    } else {
                        push_dec(&mut out, d);
                    }
                    let mut tail = crate::text::chars_of(".0");
                    out.append(&mut tail);
                    proof {
                        assert(out@ == ser_value(v@));
                    }
                    Ok(out)
                },
            }
        },
    }
}

impl Config {
    /// Writes the whole store in its canonical text form; refused when a
    /// name, key or value cannot be carried by the format.
    #[verifier::rlimit(100)]
    #[verifier::spinoff_prover]
    pub fn serialize(&self) -> (r: Result<String, ConfigError>)
        ensures
            r is Ok <==> config_serializable(self.entry_view()),
            r matches Ok(s) ==> s@ == ser_config(self.entry_view()),
            r matches Err(e) ==> e == ConfigError::Serialize,
    {
        let ev = Ghost(self.entry_view());
        let mut out: Vec<char> = Vec::new();
        let n = self.entries.len();
        proof {
            assert(ser_lines(ev@.take(0)) =~= Seq::<Seq<char>>::empty());
            assert(out@ =~= join_lines(ser_lines(ev@.take(0))));
        }
        for i in 0..n
            invariant
                n == self.entries@.len(),
                ev@ == self.entry_view(),
                out@ == join_lines(ser_lines(ev@.take(i as int))),
                forall|a: int| 0 <= a < i ==> ns_serializable(#[trigger] ev@[a]),
        {
            let name_chars = crate::text::chars_of(self.entries[i].name.as_str());
            proof {
                assert(name_chars@ == ev@[i as int].name);
            }
            if !is_bare_vec(&name_chars) {
                proof {
                    assert(!ns_serializable(ev@[i as int]));
                }
                return Err(ConfigError::Serialize);
            }
            let hl = Ghost(ser_lines(ev@.take(i as int)).push(
                seq!['['] + ev@[i as int].name + seq![']'],
            ));
            out.push('[');
            let mut nb = name_chars;
            out.append(&mut nb);
            out.push(']');
            out.push('\n');
            proof {
                lemma_join_push(ser_lines(ev@.take(i as int)), seq!['['] + ev@[i as int].name
                    + seq![']']);
                assert(out@ =~= join_lines(hl@));
                assert(ser_props(ev@[i as int].props.take(0)) =~= Seq::<Seq<char>>::empty());
                assert(hl@ + ser_props(ev@[i as int].props.take(0)) =~= hl@);
            }
            let m = self.entries[i].props.len();
            for j in 0..m
                invariant
                    n == self.entries@.len(),
                    i < n,
                    ev@ == self.entry_view(),
                    m == ev@[i as int].props.len(),
                    hl@ == ser_lines(ev@.take(i as int)).push(
                        seq!['['] + ev@[i as int].name + seq![']'],
                    ),
                    out@ == join_lines(hl@ + ser_props(ev@[i as int].props.take(j as int))),
                    forall|a: int| 0 <= a < i ==> ns_serializable(#[trigger] ev@[a]),
                    is_bare(ev@[i as int].name),
                    forall|b: int|
                        0 <= b < j ==> is_bare((#[trigger] ev@[i as int].props[b]).key)
                            && value_serializable(ev@[i as int].props[b].value),
            {
                let key_chars = crate::text::chars_of(self.entries[i].props[j].key.as_str());
                proof {
                    assert(self.entries@[i as int].props@[j as int]@ == ev@[i as int].props[
                        j as int]);
                    assert(key_chars@ == ev@[i as int].props[j as int].key);
                }
                if !is_bare_vec(&key_chars) {
                    proof {
                        assert(!ns_serializable(ev@[i as int]));
                    }
                    return Err(ConfigError::Serialize);
                }
                match ser_value_vec(&self.entries[i].props[j].value) {
                    Err(e) => {
                        proof {
                            assert(!value_serializable(ev@[i as int].props[j as int].value));
                            assert(!ns_serializable(ev@[i as int]));
                        }
                        return Err(e);
                    },
                    Ok(vchars) => {
                        let mut kb = key_chars;
                        out.append(&mut kb);
                        let mut mid = crate::text::chars_of(" = ");
                        out.append(&mut mid);
                        let mut vb = vchars;
                        out.append(&mut vb);
                        out.push('\n');
                        proof {
                            let line = ev@[i as int].props[j as int].key + " = "@ + ser_value(
                                ev@[i as int].props[j as int].value,
                            );
                            lemma_join_push(
                                hl@ + ser_props(ev@[i as int].props.take(j as int)),
                                line,
                            );
                            assert(ser_props(ev@[i as int].props.take(j + 1)).drop_last() =~= ser_props(
                                ev@[i as int].props.take(j as int),
                            )) by {
                                assert(ev@[i as int].props.take(j + 1).drop_last() =~= ev@[
                                    i as int].props.take(j as int));
                            }
                            assert(hl@ + ser_props(ev@[i as int].props.take(j + 1)) =~= (hl@
                                + ser_props(ev@[i as int].props.take(j as int))).push(line));
                            assert(out@ =~= join_lines(
                                hl@ + ser_props(ev@[i as int].props.take(j + 1)),
                            ));
                        }
                    },
                }
            }
            proof {
                assert(ev@[i as int].props.take(m as int) =~= ev@[i as int].props);
                assert(ser_lines(ev@.take(i + 1)) =~= hl@ + ser_props(ev@[i as int].props)) by {
                    assert(ev@.take(i + 1).drop_last() =~= ev@.take(i as int));
                }
                assert(ns_serializable(ev@[i as int]));
            }
        }
        proof {
            assert(ev@.take(n as int) =~= ev@);
            assert(config_serializable(ev@));
        }
        Ok(crate::text::string_of(&out))
    }

    /// The decision of load-or-create: parsed file content wins; a missing
    /// file yields the default and its serialized text to be written; a
    /// file that does not parse is an error, never overwritten.  A default
    /// the format cannot carry (a fractional float value, a non-bare name
    /// or key) is likewise an error rather than a partial write.
    pub fn resolve_loaded(contents: Option<&str>, default: Config) -> (r: Result<
        LoadOutcome,
        ConfigError,
    >)
        ensures
            match contents {
                Some(text) => {
                    &&& (r is Ok <==> spec_parse(text@) is Some)
                    &&& (r matches Ok(o) ==> Some(o.config@) == spec_parse(text@) && o.config.wf()
                        && o.write_back is None)
                },
                None => {
                    &&& (r is Ok <==> config_serializable(default.entry_view()))
                    &&& (r matches Ok(o) ==> o.config@ == default@ && o.config.wf()
                        == default.wf() && (o.write_back matches Some(s) && s@ == ser_config(
                        default.entry_view(),
                    )))
                },
            },
    {
        match contents {
            Some(text) => {
                match Config::parse(text) {
                    Ok(config) => Ok(LoadOutcome { config, write_back: None }),
                    Err(e) => Err(e),
                }
            },
            None => {
                match default.serialize() {
                    Ok(s) => Ok(LoadOutcome { config: default, write_back: Some(s) }),
                    Err(e) => Err(e),
                }
            },
        }
    }
}

/// What loading the configuration produced: the store to use, and, when
/// the file was absent, the text to write there.
pub struct LoadOutcome {
    pub config: Config,
    pub write_back: Option<String>,
}

// ---------------------------------------------------------------------
// Round trip: a serialized value token reads back as the same value.
// ---------------------------------------------------------------------
proof fn lemma_digit_round(v: nat)
    requires
        v < 10,
    ensures
        is_digit(digit_char(v)),
        digit_val(digit_char(v)) == v,
        v > 0 ==> digit_char(v) != '0',
{
}

proof fn lemma_dec_digits_run(n: nat)
    ensures
        dec_digits(n).len() > 0,
        forall|i: int| 0 <= i < dec_digits(n).len() ==> is_digit(#[trigger] dec_digits(n)[i]),
        digits_val(dec_digits(n)) == n,
        dec_digits(n)[0] == digit_char(n) || n >= 10,
        n >= 1 ==> dec_digits(n)[0] != '0',
        dec_digits(n).len() > 1 ==> dec_digits(n)[0] != '0',
    decreases n,
{
    if n < 10 {
        lemma_digit_round(n);
        assert(dec_digits(n).drop_last() =~= Seq::<char>::empty());
        assert(digits_val(Seq::<char>::empty()) == 0);
        assert(dec_digits(n).last() == digit_char(n));
        assert(digits_val(dec_digits(n)) == n);
        assert(n >= 1 ==> dec_digits(n)[0] != '0');
    } else {
        lemma_dec_digits_run(n / 10);
        lemma_digit_round(n % 10);
        assert(dec_digits(n).drop_last() =~= dec_digits(n / 10));
        assert(dec_digits(n)[0] == dec_digits(n / 10)[0]);
        assert(dec_digits(n)[0] != '0');
        assert(digits_val(dec_digits(n)) == n);
        assert(forall|i: int|
            0 <= i < dec_digits(n).len() ==> is_digit(#[trigger] dec_digits(n)[i]));
    }
}

proof fn lemma_dec_digits_len(n: nat, k: nat)
    requires
        n < pow10(k),
        k >= 1,
    ensures
        dec_digits(n).len() <= k,
    decreases n,
{
    if n >= 10 {
        assert(pow10(k) == 10 * pow10((k - 1) as nat));
        lemma_dec_digits_len(n / 10, (k - 1) as nat);
    }
}

proof fn lemma_digits_no_dot(n: nat)
    ensures
        first_idx(dec_digits(n), '.') == -1,
        first_idx(dec_digits(n), '"') == -1,
{
    lemma_dec_digits_run(n);
    assert(forall|j: int|
        0 <= j < dec_digits(n).len() ==> #[trigger] dec_digits(n)[j] != '.' && dec_digits(n)[j]
            != '"');
    lemma_first_idx_none(dec_digits(n), '.');
    lemma_first_idx_none(dec_digits(n), '"');
}

proof fn lemma_norm_up_shift(m: u64, k: u64, ef0: u64)
    requires
        0x10000000000000 <= m < 0x20000000000000,
        k <= 52,
        m & (((1u64 << k) - 1) as u64) == 0,
        53 + k <= ef0,
    ensures
        norm_up(m >> k, ef0) == (m, (ef0 - k) as u64),
    decreases k,
{
    if k == 0 {
        assert(m >> 0u64 == m) by (bit_vector);
        assert(m >> k == m);
    } else {
        let d = m >> k;
        assert(1u64 <= (m >> k) && (m >> k) < 0x10000000000000) by (bit_vector)
            requires
                0x10000000000000 <= m < 0x20000000000000 && 1u64 <= k <= 52,
        ;
        assert((m >> k) * 2 == m >> ((k - 1) as u64)) by (bit_vector)
            requires
                0x10000000000000 <= m < 0x20000000000000 && 1u64 <= k <= 52 && m & (((1u64 << k)
                    - 1) as u64) == 0,
        ;
        assert(m & (((1u64 << ((k - 1) as u64)) - 1) as u64) == 0) by (bit_vector)
            requires
                1u64 <= k <= 52 && m & (((1u64 << k) - 1) as u64) == 0,
        ;
        lemma_norm_up_shift(m, (k - 1) as u64, (ef0 - 1) as u64);
        assert(norm_up(d, ef0) == norm_up((d * 2) as u64, (ef0 - 1) as u64));
    }
}

/// A bit pattern that denotes an integer is recovered from that integer.
proof fn lemma_bits_of_uint_inverse(body: u64, d: u64)
    requires
        uint_of_bits(body) == Some(d),
        d >= 1,
    ensures
        1 <= d < 0x20000000000000,
        bits_of_uint(d) == body,
{
    let ef = body >> 52;
    let frac = body & 0xFFFFFFFFFFFFF;
    let m = frac | 0x10000000000000;
    assert(0x10000000000000 <= m < 0x20000000000000) by (bit_vector)
        requires
            m == (body & 0xFFFFFFFFFFFFF) | 0x10000000000000,
    ;
    if ef == 1075 {
        assert(d == m);
        assert(m >> 0u64 == m) by (bit_vector);
        assert(m & (((1u64 << 0u64) - 1) as u64) == 0) by (bit_vector);
        lemma_norm_up_shift(m, 0, 1075);
        assert(norm_up(d, 1075) == (m, 1075u64));
        assert((1075u64 << 52) | ((m - 0x10000000000000) as u64) == body) by (bit_vector)
            requires
                body >> 52 == 1075u64 && m == (body & 0xFFFFFFFFFFFFF) | 0x10000000000000,
        ;
    } else {
        assert(0 < ef < 1075);
        let k = (1075 - ef) as u64;
        assert(k <= 52 && m & (((1u64 << k) - 1) as u64) == 0 && d == m >> k);
        assert(d < 0x20000000000000) by (bit_vector)
            requires
                d == m >> k && m < 0x20000000000000,
        ;
        lemma_norm_up_shift(m, k, 1075);
        assert(norm_up(d, 1075) == (m, ef));
        assert((ef << 52) | ((m - 0x10000000000000) as u64) == body) by (bit_vector)
            requires
                ef == body >> 52 && 0 < ef < 1075u64 && m == (body & 0xFFFFFFFFFFFFF)
                    | 0x10000000000000,
        ;
    }
}

proof fn lemma_hex_of_char(v: u8)
    requires
        v < 16,
    ensures
        crate::value::is_hex_digit(crate::value::hex_digit_char(v)),
        crate::value::hex_digit_val(crate::value::hex_digit_char(v)) == v,
{
}

/// A serialized color reads back as the same color.
proof fn lemma_color_ser_parse(c: Color)
    ensures
        is_color_text(spec_ser_color(c)),
        spec_parse_color(spec_ser_color(c)) == c,
{
    let s = spec_ser_color(c);
    lemma_hex_of_char(c.r / 16);
    lemma_hex_of_char(c.r % 16);
    lemma_hex_of_char(c.g / 16);
    lemma_hex_of_char(c.g % 16);
    lemma_hex_of_char(c.b / 16);
    lemma_hex_of_char(c.b % 16);
    lemma_hex_of_char(c.a / 16);
    lemma_hex_of_char(c.a % 16);
    assert(forall|i: int| 1 <= i < s.len() ==> crate::value::is_hex_digit(#[trigger] s[i]));
    assert(crate::value::spec_channel(s, 1) == c.r);
    assert(crate::value::spec_channel(s, 3) == c.g);
    assert(crate::value::spec_channel(s, 5) == c.b);
    assert(crate::value::spec_channel(s, 7) == c.a);
}

/// Values the round trip covers: serializable, and text that the reader
/// would not mistake for a color.
pub open spec fn value_round_trippable(v: ValueView) -> bool {
    &&& value_serializable(v)
    &&& match v {
        ValueView::Text(s) => !is_color_text(s),
        _ => true,
    }
}

/// A serialized value token reads back as the same value.
pub proof fn lemma_value_round_trip(v: ValueView)
    requires
        value_round_trippable(v),
    ensures
        spec_parse_value(ser_value(v)) == Some(v),
{
    reveal_strlit("true");
    reveal_strlit("false");
    reveal_strlit(".0");
    let t = ser_value(v);
    match v {
        ValueView::Boolean(b) => {
            if b {
                assert(t == "true"@);
            } else {
                assert(t != "true"@);
                assert(t == "false"@);
            }
        },
        ValueView::Integer(i) => {
            let mag: nat = if i < 0 {
                (0 - i as int) as nat
            } else {
                i as nat
            };
            lemma_dec_digits_run(mag);
            lemma_pow10_19();
            lemma_dec_digits_len(mag, 19);
            lemma_digits_no_dot(mag);
            let ds = dec_digits(mag);
            if i < 0 {
                assert(t == seq!['-'] + ds);
                assert(t.first() == '-');
                assert(t != "true"@ && t != "false"@);
                assert(t.first() != '"');
                assert(t.drop_first() =~= ds);
                assert(is_digit_run(ds));
                assert(mag <= 0x8000000000000000);
                assert(spec_parse_value(t) == Some(ValueView::Integer((0 - mag) as i64)));
                assert((0 - mag) as i64 == i);
            } else {
                assert(t == ds);
                assert(is_digit(t.first()) && t.first() != '-' && t.first() != '"');
                assert(t != "true"@ && t != "false"@);
                assert(digits_val(ds) == mag && mag <= 0x7FFFFFFFFFFFFFFF);
                assert(spec_parse_value(t) == Some(ValueView::Integer(mag as i64)));
                assert(mag as i64 == i);
            }
        },
        ValueView::Float(bits) => {
            let body = bits & 0x7FFFFFFFFFFFFFFF;
            let d = uint_of_bits(body)->0;
            let neg = bits >> 63 == 1;
            assert(bits >> 63 == 0 || bits >> 63 == 1) by (bit_vector);
            assert(d < 0x20000000000000) by {
                if body != 0 {
                    let ef = body >> 52;
                    let frac = body & 0xFFFFFFFFFFFFF;
                    let m = frac | 0x10000000000000;
                    assert(m < 0x20000000000000) by (bit_vector)
                        requires
                            m == (body & 0xFFFFFFFFFFFFF) | 0x10000000000000,
                    ;
                    if ef != 1075 {
                        let k = (1075 - ef) as u64;
                        assert(m >> k <= m) by (bit_vector);
                    }
                }
            }
            lemma_dec_digits_run(d as nat);
            lemma_pow10_19();
            lemma_dec_digits_len(d as nat, 19);
            let ds = dec_digits(d as nat);
            let tok = if neg {
                seq!['-'] + ds + ".0"@
            } else {
                ds + ".0"@
            };
            assert(t == tok);
            assert(t.first() == '-' || is_digit(t.first()));
            assert(t != "true"@ && t != "false"@ && t.first() != '"');
            let bodytok = if neg {
                t.drop_first()
            } else {
                t
            };
            assert(bodytok =~= ds + ".0"@);
            assert(forall|j: int| 0 <= j < ds.len() ==> #[trigger] bodytok[j] != '.');
            assert(bodytok[ds.len() as int] == '.');
            lemma_first_idx_at(bodytok, '.', ds.len() as int);
            assert(bodytok.take(ds.len() as int) =~= ds);
            assert(bodytok.skip(ds.len() as int + 1) =~= seq!['0']);
            assert(is_digit_run(ds) && ds.len() <= 19);
            assert(digits_val(ds) == d);
            assert(spec_parse_value(t) == Some(ValueView::Float(float_bits(neg, d))));
            assert(float_bits(neg, d) == bits) by {
                if d == 0 {
                    assert(body == 0) by {
                        if body != 0 {
                            let ef = body >> 52;
                            let frac = body & 0xFFFFFFFFFFFFF;
                            let m = frac | 0x10000000000000;
                            if ef == 1075 {
                                assert(m >= 1) by (bit_vector)
                                    requires
                                        m == (body & 0xFFFFFFFFFFFFF) | 0x10000000000000,
                                ;
                            } else {
                                let k = (1075 - ef) as u64;
                                assert(m >> k >= 1) by (bit_vector)
                                    requires
                                        m == (body & 0xFFFFFFFFFFFFF) | 0x10000000000000 && k
                                            <= 52u64,
                                ;
                            }
                            assert(false);
                        }
                    }
                    if neg {
                        assert(0u64 | 0x8000000000000000 == (1u64 << 63)) by (bit_vector);
                        assert(bits == (1u64 << 63)) by (bit_vector)
                            requires
                                bits >> 63 == 1u64 && bits & 0x7FFFFFFFFFFFFFFF == 0,
                        ;
                        assert(float_bits(true, 0) == 0u64 | 0x8000000000000000);
                    } else {
                        assert(bits == 0) by (bit_vector)
                            requires
                                bits >> 63 == 0u64 && bits & 0x7FFFFFFFFFFFFFFF == 0,
                        ;
                    }
                } else {
                    lemma_bits_of_uint_inverse(body, d);
                    let bb = bits_of_uint(d);
                    if neg {
                        assert(bb | 0x8000000000000000 == bits) by (bit_vector)
                            requires
                                bits >> 63 == 1u64 && bb == bits & 0x7FFFFFFFFFFFFFFF,
                        ;
                    } else {
                        assert(bb == bits) by (bit_vector)
                            requires
                                bits >> 63 == 0u64 && bb == bits & 0x7FFFFFFFFFFFFFFF,
                        ;
                    }
                }
            }
        },
        ValueView::Text(s) => {
            assert(t == seq!['"'] + escape(s) + seq!['"']);
            assert(t.first() == '"' && t.last() == '"' && t.len() >= 2);
            assert(t != "true"@ && t != "false"@);
            assert(t.subrange(1, t.len() - 1) =~= escape(s));
            lemma_unescape_escape(s);
        },
        ValueView::Color(c) => {
            lemma_color_ser_parse(c);
            assert(t == seq!['"'] + spec_ser_color(c) + seq!['"']);
            assert(t.first() == '"' && t.last() == '"' && t.len() == 11);
            assert(t != "true"@ && t != "false"@);
            assert(t.subrange(1, t.len() - 1) =~= spec_ser_color(c));
            assert(forall|i: int|
                0 <= i < spec_ser_color(c).len() ==> #[trigger] spec_ser_color(c)[i] != '"'
                    && spec_ser_color(c)[i] != '\\');
            lemma_unescape_plain(spec_ser_color(c));
        },
    }
}

// ---------------------------------------------------------------------
// Round trip of whole documents: the serialized lines and their reading.
// ---------------------------------------------------------------------
proof fn lemma_join_first(ls: Seq<Seq<char>>)
    requires
        ls.len() > 0,
    ensures
        join_lines(ls) == ls.first() + seq!['\n'] + join_lines(ls.drop_first()),
    decreases ls.len(),
{
    if ls.len() == 1 {
        assert(ls.drop_last() =~= Seq::<Seq<char>>::empty());
        assert(ls.drop_first() =~= Seq::<Seq<char>>::empty());
        assert(join_lines(ls) =~= ls.first() + seq!['\n'] + join_lines(ls.drop_first()));
    } else {
        lemma_join_first(ls.drop_last());
        assert(ls.drop_last().first() == ls.first());
        assert(ls.drop_first().drop_last() =~= ls.drop_last().drop_first());
        assert(ls.drop_first().last() == ls.last());
        assert(join_lines(ls) =~= ls.first() + seq!['\n'] + join_lines(ls.drop_first()));
    }
}

proof fn lemma_split_join(ls: Seq<Seq<char>>)
    requires
        forall|k: int, j: int|
            0 <= k < ls.len() && 0 <= j < ls[k].len() ==> #[trigger] ls[k][j] != '\n',
    ensures
        split_lines(join_lines(ls)) == ls.push(Seq::empty()),
    decreases ls.len(),
{
    if ls.len() == 0 {
        assert(join_lines(ls) =~= Seq::<char>::empty());
        lemma_first_idx_none(Seq::<char>::empty(), '\n');
        assert(split_lines(join_lines(ls)) =~= ls.push(Seq::empty()));
    } else {
        lemma_join_first(ls);
        assert(forall|j: int| 0 <= j < ls.first().len() ==> #[trigger] ls.first()[j] != '\n');
        lemma_split_concat(ls.first(), join_lines(ls.drop_first()));
        assert(forall|k: int, j: int|
            0 <= k < ls.drop_first().len() && 0 <= j < ls.drop_first()[k].len()
                ==> #[trigger] ls.drop_first()[k][j] != '\n');
        lemma_split_join(ls.drop_first());
        assert(seq![ls.first()] + ls.drop_first().push(Seq::<char>::empty()) =~= ls.push(
            Seq::<char>::empty(),
        ));
    }
}

proof fn lemma_ser_value_clean(v: ValueView)
    requires
        value_serializable(v),
    ensures
        ser_value(v).len() > 0,
        !is_ws(ser_value(v).first()),
        !is_ws(ser_value(v).last()),
        forall|j: int| 0 <= j < ser_value(v).len() ==> #[trigger] ser_value(v)[j] != '\n',
        ser_value(v).first() != '#',
        ser_value(v).first() != '[',
{
    reveal_strlit("true");
    reveal_strlit("false");
    reveal_strlit(".0");
    let t = ser_value(v);
    match v {
        ValueView::Integer(i) => {
            let mag: nat = if i < 0 {
                (0 - i as int) as nat
            } else {
                i as nat
            };
            lemma_dec_digits_run(mag);
            if i < 0 {
                assert(t == seq!['-'] + dec_digits(mag));
                assert(forall|j: int| 1 <= j < t.len() ==> t[j] == dec_digits(mag)[j - 1]);
            }
        },
        ValueView::Boolean(_) => {
        },
        ValueView::Float(bits) => {
            let body = bits & 0x7FFFFFFFFFFFFFFF;
            let d = uint_of_bits(body)->0;
            lemma_dec_digits_run(d as nat);
            let ds = dec_digits(d as nat);
            if bits >> 63 == 1 {
                assert(t =~= seq!['-'] + ds + ".0"@);
            } else {
                assert(t =~= ds + ".0"@);
            }
        },
        ValueView::Text(s) => {
            assert(t == seq!['"'] + escape(s) + seq!['"']);
            lemma_escape_no_break(s);
            assert(forall|j: int|
                0 < j < t.len() - 1 ==> #[trigger] t[j] == escape(s)[j - 1]);
        },
        ValueView::Color(c) => {
            lemma_color_ser_parse(c);
            assert(t == seq!['"'] + spec_ser_color(c) + seq!['"']);
            assert(forall|j: int|
                0 < j < t.len() - 1 ==> #[trigger] t[j] == spec_ser_color(c)[j - 1]);
            assert(forall|j: int|
                1 <= j < spec_ser_color(c).len() ==> crate::value::is_hex_digit(
                    #[trigger] spec_ser_color(c)[j],
                ));
            assert(spec_ser_color(c)[0] == '#');
        },
    }
}

proof fn lemma_ser_props_index(ps: Seq<PropView>, k: int)
    requires
        0 <= k < ps.len(),
    ensures
        ser_props(ps).len() == ps.len(),
        ser_props(ps)[k] == ps[k].key + " = "@ + ser_value(ps[k].value),
    decreases ps.len(),
{
    lemma_ser_props_len(ps);
    if k < ps.len() - 1 {
        assert(ps.drop_last()[k] == ps[k]);
        lemma_ser_props_index(ps.drop_last(), k);
    }
}

proof fn lemma_ser_props_len(ps: Seq<PropView>)
    ensures
        ser_props(ps).len() == ps.len(),
    decreases ps.len(),
{
    if ps.len() > 0 {
        lemma_ser_props_len(ps.drop_last());
    }
}

proof fn lemma_ser_lines_front(es: Seq<NsView>)
    requires
        es.len() > 0,
    ensures
        ser_lines(es) == (seq![seq!['['] + es.first().name + seq![']']] + ser_props(
            es.first().props,
        )) + ser_lines(es.drop_first()),
    decreases es.len(),
{
    if es.len() == 1 {
        assert(es.drop_last() =~= Seq::<NsView>::empty());
        assert(es.drop_first() =~= Seq::<NsView>::empty());
        assert(ser_lines(es) =~= (seq![seq!['['] + es.first().name + seq![']']] + ser_props(
            es.first().props,
        )) + ser_lines(es.drop_first()));
    } else {
        lemma_ser_lines_front(es.drop_last());
        assert(es.drop_last().first() == es.first());
        assert(es.drop_first().drop_last() =~= es.drop_last().drop_first());
        assert(es.drop_first().last() == es.last());
        assert(ser_lines(es) =~= (seq![seq!['['] + es.first().name + seq![']']] + ser_props(
            es.first().props,
        )) + ser_lines(es.drop_first()));
    }
}

proof fn lemma_apply_props_front(m: ConfigMap, n: Seq<char>, ps: Seq<PropView>, j: int)
    requires
        1 <= j <= ps.len(),
    ensures
        apply_props_upto(m, n, ps, j) == apply_props_upto(
            spec_insert(m, n, ps[0].key, ps[0].value),
            n,
            ps.drop_first(),
            j - 1,
        ),
    decreases j,
{
    if j == 1 {
        assert(apply_props_upto(m, n, ps, 0) == m);
        let m2 = spec_insert(m, n, ps[0].key, ps[0].value);
        assert(apply_props_upto(m2, n, ps.drop_first(), 0) == m2);
    } else {
        lemma_apply_props_front(m, n, ps, j - 1);
        assert(ps.drop_first()[j - 2] == ps[j - 1]);
    }
}

proof fn lemma_apply_nss_front(m: ConfigMap, es: Seq<NsView>, i: int)
    requires
        1 <= i <= es.len(),
    ensures
        apply_nss_upto(m, es, i) == apply_nss_upto(
            apply_ns_full(m, es[0]),
            es.drop_first(),
            i - 1,
        ),
    decreases i,
{
    if i == 1 {
        assert(apply_nss_upto(m, es, 0) == m);
        let m2 = apply_ns_full(m, es[0]);
        assert(apply_nss_upto(m2, es.drop_first(), 0) == m2);
    } else {
        lemma_apply_nss_front(m, es, i - 1);
        assert(es.drop_first()[i - 2] == es[i - 1]);
    }
}

/// What one namespace must satisfy for its serialized form to read back
/// unchanged: carriable by the format, and no text value shaped like a
/// color code.
pub open spec fn ns_round_trippable(ns: NsView) -> bool {
    &&& is_bare(ns.name)
    &&& forall|j: int|
        0 <= j < ns.props.len() ==> is_bare((#[trigger] ns.props[j]).key) && value_round_trippable(
            ns.props[j].value,
        )
}

/// What a whole store must satisfy for its serialized form to read back
/// unchanged.
pub open spec fn config_round_trippable(es: Seq<NsView>) -> bool {
    forall|i: int| 0 <= i < es.len() ==> ns_round_trippable(#[trigger] es[i])
}

proof fn lemma_prop_line_facts(key: Seq<char>, v: ValueView)
    requires
        is_bare(key),
        value_serializable(v),
    ensures
        ({
            let line = key + " = "@ + ser_value(v);
            &&& line.len() > 0
            &&& trim(line) == line
            &&& line.first() != '#'
            &&& line.first() != '['
            &&& first_idx(line, '=') == key.len() + 1
            &&& trim_end(line.take(key.len() as int + 1)) == key
            &&& trim_start(line.skip(key.len() as int + 2)) == ser_value(v)
            &&& forall|j: int| 0 <= j < line.len() ==> #[trigger] line[j] != '\n'
        }),
{
    reveal_strlit(" = ");
    lemma_ser_value_clean(v);
    let line = key + " = "@ + ser_value(v);
    assert(" = "@.len() == 3 && " = "@[0] == ' ' && " = "@[1] == '=' && " = "@[2] == ' ');
    assert(forall|j: int| 0 <= j < key.len() ==> #[trigger] line[j] == key[j]);
    assert(line[key.len() as int] == ' ');
    assert(line[key.len() as int + 1] == '=');
    assert(line[key.len() as int + 2] == ' ');
    assert(forall|j: int|
        key.len() + 3 <= j < line.len() ==> #[trigger] line[j] == ser_value(v)[j - key.len()
            - 3]);
    assert(line.first() == key[0] && is_bare_char(key[0]));
    assert(line.last() == ser_value(v).last());
    assert(trim_start(line) == line);
    assert(trim_end(line) == line);
    assert(forall|j: int| 0 <= j < key.len() + 1 ==> #[trigger] line[j] != '=');
    lemma_first_idx_at(line, '=', key.len() as int + 1);
    assert(line.take(key.len() as int + 1) =~= key + seq![' ']);
    assert((key + seq![' ']).drop_last() =~= key);
    assert(trim_end(key + seq![' ']) == trim_end(key));
    assert(trim_end(key) == key);
    assert(line.skip(key.len() as int + 2) =~= seq![' '] + ser_value(v));
    assert((seq![' '] + ser_value(v)).drop_first() =~= ser_value(v));
    assert(trim_start(seq![' '] + ser_value(v)) == trim_start(ser_value(v)));
    assert(trim_start(ser_value(v)) == ser_value(v));
}

proof fn lemma_header_line_facts(name: Seq<char>)
    requires
        is_bare(name),
    ensures
        ({
            let line = seq!['['] + name + seq![']'];
            &&& line.len() >= 2
            &&& trim(line) == line
            &&& line.first() == '['
            &&& line.last() == ']'
            &&& line.subrange(1, line.len() - 1) == name
            &&& forall|j: int| 0 <= j < line.len() ==> #[trigger] line[j] != '\n'
        }),
{
    let line = seq!['['] + name + seq![']'];
    assert(forall|j: int| 0 < j < line.len() - 1 ==> #[trigger] line[j] == name[j - 1]);
    assert(trim_start(line) == line);
    assert(trim_end(line) == line);
    assert(line.subrange(1, line.len() - 1) =~= name);
}

proof fn lemma_ser_lines_clean(es: Seq<NsView>)
    requires
        config_round_trippable(es),
    ensures
        forall|k: int, j: int|
            0 <= k < ser_lines(es).len() && 0 <= j < ser_lines(es)[k].len()
                ==> #[trigger] ser_lines(es)[k][j] != '\n',
    decreases es.len(),
{
    if es.len() > 0 {
        assert(config_round_trippable(es.drop_last())) by {
            assert(forall|i: int|
                0 <= i < es.drop_last().len() ==> #[trigger] es.drop_last()[i] == es[i]);
        }
        lemma_ser_lines_clean(es.drop_last());
        let ns = es.last();
        assert(ns_round_trippable(ns));
        lemma_header_line_facts(ns.name);
        lemma_ser_props_len(ns.props);
        let pre = ser_lines(es.drop_last());
        let block = seq![seq!['['] + ns.name + seq![']']] + ser_props(ns.props);
        assert(ser_lines(es) == pre + block);
        assert forall|k: int, j: int|
            0 <= k < ser_lines(es).len() && 0 <= j < ser_lines(es)[k].len() implies (
        #[trigger] ser_lines(es)[k][j]) != '\n' by {
            if k < pre.len() {
                assert(ser_lines(es)[k] == pre[k]);
            } else if k == pre.len() {
                assert(ser_lines(es)[k] == seq!['['] + ns.name + seq![']']);
            } else {
                let p = k - pre.len() - 1;
                lemma_ser_props_index(ns.props, p);
                assert(ser_lines(es)[k] == ns.props[p].key + " = "@ + ser_value(
                    ns.props[p].value,
                ));
                lemma_prop_line_facts(ns.props[p].key, ns.props[p].value);
            }
        }
    }
}

proof fn lemma_parse_props_lines(
    lines: Seq<Seq<char>>,
    i: int,
    name: Seq<char>,
    ps: Seq<PropView>,
    acc: ConfigMap,
)
    requires
        0 <= i,
        i + ps.len() <= lines.len(),
        forall|k: int|
            0 <= k < ps.len() ==> #[trigger] lines[i + k] == ps[k].key + " = "@ + ser_value(
                ps[k].value,
            ),
        forall|k: int|
            0 <= k < ps.len() ==> is_bare((#[trigger] ps[k]).key) && value_round_trippable(
                ps[k].value,
            ),
    ensures
        spec_parse_lines(lines, i, Some(name), acc) == spec_parse_lines(
            lines,
            i + ps.len(),
            Some(name),
            apply_props_upto(acc, name, ps, ps.len() as int),
        ),
    decreases ps.len(),
{
    if ps.len() == 0 {
        assert(apply_props_upto(acc, name, ps, 0) == acc);
    } else {
        let line = lines[i];
        assert(lines[i + 0] == ps[0].key + " = "@ + ser_value(ps[0].value));
        assert(line == ps[0].key + " = "@ + ser_value(ps[0].value));
        lemma_prop_line_facts(ps[0].key, ps[0].value);
        lemma_value_round_trip(ps[0].value);
        let key = ps[0].key;
        assert(trim(line) == line && line.len() > 0);
        assert(line.first() != '#' && line.first() != '[');
        assert(first_idx(line, '=') == key.len() + 1);
        assert(trim_end(line.take(key.len() as int + 1)) == key);
        assert(trim_start(line.skip(key.len() as int + 2)) == ser_value(ps[0].value));
        assert(spec_parse_value(ser_value(ps[0].value)) == Some(ps[0].value));
        let acc2 = spec_insert(acc, name, ps[0].key, ps[0].value);
        assert(spec_parse_lines(lines, i, Some(name), acc) == spec_parse_lines(
            lines,
            i + 1,
            Some(name),
            acc2,
        ));
        assert forall|k: int|
            0 <= k < ps.drop_first().len() implies #[trigger] lines[i + 1 + k]
                == ps.drop_first()[k].key + " = "@ + ser_value(ps.drop_first()[k].value) by {
            assert(ps.drop_first()[k] == ps[k + 1]);
            assert(lines[i + (k + 1)] == ps[k + 1].key + " = "@ + ser_value(ps[k + 1].value));
            assert(i + 1 + k == i + (k + 1));
        }
        assert forall|k: int|
            0 <= k < ps.drop_first().len() implies is_bare(
            (#[trigger] ps.drop_first()[k]).key,
        ) && value_round_trippable(ps.drop_first()[k].value) by {
            assert(ps.drop_first()[k] == ps[k + 1]);
            assert(is_bare(ps[k + 1].key) && value_round_trippable(ps[k + 1].value));
        }
        lemma_parse_props_lines(lines, i + 1, name, ps.drop_first(), acc2);
        lemma_apply_props_front(acc, name, ps, ps.len() as int);
    }
}

proof fn lemma_parse_ns_lines(
    lines: Seq<Seq<char>>,
    i: int,
    ns0: Option<Seq<char>>,
    nsv: NsView,
    acc: ConfigMap,
)
    requires
        0 <= i,
        i + 1 + nsv.props.len() <= lines.len(),
        lines[i] == seq!['['] + nsv.name + seq![']'],
        forall|k: int|
            0 <= k < nsv.props.len() ==> #[trigger] lines[i + 1 + k] == nsv.props[k].key + " = "@
                + ser_value(nsv.props[k].value),
        ns_round_trippable(nsv),
    ensures
        spec_parse_lines(lines, i, ns0, acc) == spec_parse_lines(
            lines,
            i + 1 + nsv.props.len(),
            Some(nsv.name),
            apply_ns_full(acc, nsv),
        ),
{
    lemma_header_line_facts(nsv.name);
    assert(spec_parse_lines(lines, i, ns0, acc) == spec_parse_lines(
        lines,
        i + 1,
        Some(nsv.name),
        spec_touch(acc, nsv.name),
    ));
    lemma_parse_props_lines(lines, i + 1, nsv.name, nsv.props, spec_touch(acc, nsv.name));
}

spec fn ns_after(es: Seq<NsView>, ns0: Option<Seq<char>>) -> Option<Seq<char>> {
    if es.len() == 0 {
        ns0
    } else {
        Some(es.last().name)
    }
}

proof fn lemma_parse_all_lines(
    lines: Seq<Seq<char>>,
    i: int,
    es: Seq<NsView>,
    ns0: Option<Seq<char>>,
    acc: ConfigMap,
)
    requires
        0 <= i,
        i + ser_lines(es).len() <= lines.len(),
        forall|k: int|
            0 <= k < ser_lines(es).len() ==> #[trigger] lines[i + k] == ser_lines(es)[k],
        config_round_trippable(es),
    ensures
        spec_parse_lines(lines, i, ns0, acc) == spec_parse_lines(
            lines,
            i + ser_lines(es).len(),
            ns_after(es, ns0),
            apply_nss_upto(acc, es, es.len() as int),
        ),
    decreases es.len(),
{
    if es.len() == 0 {
        assert(ser_lines(es) =~= Seq::<Seq<char>>::empty());
        assert(apply_nss_upto(acc, es, 0) == acc);
    } else {
        let first = es.first();
        assert(ns_round_trippable(first));
        lemma_ser_lines_front(es);
        lemma_ser_props_len(first.props);
        let block: int = 1 + first.props.len() as int;
        assert(lines[i] == seq!['['] + first.name + seq![']']) by {
            assert(ser_lines(es)[0] == seq!['['] + first.name + seq![']']);
            assert(lines[i + 0] == ser_lines(es)[0]);
        }
        assert(forall|k: int|
            0 <= k < first.props.len() ==> #[trigger] lines[i + 1 + k] == first.props[k].key
                + " = "@ + ser_value(first.props[k].value)) by {
            assert forall|k: int| 0 <= k < first.props.len() implies #[trigger] lines[i + 1 + k]
                == first.props[k].key + " = "@ + ser_value(first.props[k].value) by {
                lemma_ser_props_index(first.props, k);
                assert(ser_lines(es)[1 + k] == ser_props(first.props)[k]);
                assert(lines[i + (1 + k)] == ser_lines(es)[1 + k]);
            }
        }
        lemma_parse_ns_lines(lines, i, ns0, first, acc);
        let acc2 = apply_ns_full(acc, first);
        let rest = es.drop_first();
        assert(config_round_trippable(rest)) by {
            assert(forall|k: int| 0 <= k < rest.len() ==> #[trigger] rest[k] == es[k + 1]);
        }
        assert(forall|k: int|
            0 <= k < ser_lines(rest).len() ==> #[trigger] lines[i + block + k] == ser_lines(
                rest,
            )[k]) by {
            assert forall|k: int| 0 <= k < ser_lines(rest).len() implies #[trigger] lines[i
                + block + k] == ser_lines(rest)[k] by {
                assert(ser_lines(es)[block + k] == ser_lines(rest)[k]);
                assert(lines[i + (block + k)] == ser_lines(es)[block + k]);
            }
        }
        lemma_parse_all_lines(lines, i + block, rest, Some(first.name), acc2);
        lemma_apply_nss_front(acc, es, es.len() as int);
        assert(ns_after(rest, Some(first.name)) == ns_after(es, ns0)) by {
            if rest.len() > 0 {
                assert(rest.last() == es.last());
            }
        }
    }
}

/// Round trip: a well-formed store that the format can carry, written
/// out and read back, denotes the same two-level map.
pub proof fn lemma_config_round_trip(es: Seq<NsView>)
    requires
        wf_entries(es),
        config_round_trippable(es),
    ensures
        spec_parse(ser_config(es)) == Some(entries_map(es)),
{
    lemma_ser_lines_clean(es);
    lemma_split_join(ser_lines(es));
    let lines = ser_lines(es).push(Seq::<char>::empty());
    assert(split_lines(ser_config(es)) == lines);
    assert(forall|k: int|
        0 <= k < ser_lines(es).len() ==> #[trigger] lines[0 + k] == ser_lines(es)[k]);
    lemma_parse_all_lines(lines, 0, es, None, Map::empty());
    let acc = apply_nss_upto(Map::empty(), es, es.len() as int);
    let last: int = ser_lines(es).len() as int;
    assert(trim_start(Seq::<char>::empty()) =~= Seq::<char>::empty());
    assert(trim(lines[last]).len() == 0);
    assert(spec_parse_lines(lines, last, ns_after(es, None), acc) == spec_parse_lines(
        lines,
        last + 1,
        ns_after(es, None),
        acc,
    ));
    assert(spec_parse_lines(lines, last + 1, ns_after(es, None), acc) == Some(acc));
    crate::config::lemma_apply_nss_merge(Map::empty(), es, es.len() as int);
    assert(es.take(es.len() as int) =~= es);
    assert(spec_merge(Map::<Seq<char>, Map<Seq<char>, ValueView>>::empty(), entries_map(es))
        =~~= entries_map(es));
}

impl Config {
    /// Round trip at the store: this configuration, written out and read
    /// back, denotes the same two-level map.
    pub proof fn lemma_serialize_parse_round_trip(&self)
        requires
            self.wf(),
            config_round_trippable(self.entry_view()),
        ensures
            spec_parse(ser_config(self.entry_view())) == Some(self@),
    {
        lemma_config_round_trip(self.entry_view());
    }
}

} // verus!
