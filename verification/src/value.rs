//! Scalar leaf values of the board-description tree: absent, signed integer,
//! exact decimal number, or string, together with the token-to-value and
//! value-to-token conversions used by the parser and the printer.

use vstd::prelude::*;

verus! {

/// An exact decimal number `mantissa / 10^scale`.
///
/// The textual form `-12.50` is held as `mantissa == -1250`, `scale == 2`;
/// no rounding ever happens. `scale` is kept small enough (at most
/// [`MAX_SCALE`]) that `10^scale` fits comfortably in an `i64`.
#[derive(Debug, Clone, Copy, PartialEq, Eq, Structural)]
pub struct Decimal {
    pub mantissa: i64,
    pub scale: u32,
}

/// The largest number of fraction digits a decimal token may carry.
pub const MAX_SCALE: u32 = 18;

/// A scalar leaf of the tree.
#[derive(Debug)]
pub enum Value {
    /// An empty token.
    Absent,
    /// A token that reads as a signed integer.
    Int(i64),
    /// A token that reads as a decimal number with a fraction part.
    Dec(Decimal),
    /// Any other non-empty token, quotes included.
    Text(String),
}

/// The mathematical shape of a [`Value`]; contracts speak of this.
pub enum ValueV {
    Absent,
    Int(int),
    Dec(int, nat),
    Text(Seq<char>),
}

impl View for Value {
    type V = ValueV;

    open spec fn view(&self) -> ValueV {
        match self {
            Value::Absent => ValueV::Absent,
            Value::Int(n) => ValueV::Int(*n as int),
            Value::Dec(d) => ValueV::Dec(d.mantissa as int, d.scale as nat),
            Value::Text(s) => ValueV::Text(s@),
        }
    }
}

impl Value {
    /// Structural equality on the mathematical shape, decided executably.
    pub fn eq_value(&self, other: &Value) -> (r: bool)
        ensures
            r == (self@ == other@),
    {
        match (self, other) {
            (Value::Absent, Value::Absent) => true,
            (Value::Int(a), Value::Int(b)) => a == b,
            (Value::Dec(a), Value::Dec(b)) => a.mantissa == b.mantissa && a.scale == b.scale,
            (Value::Text(a), Value::Text(b)) => *a == *b,
            _ => {
                assert(self@ != other@);
                false
            },
        }
    }
}

impl Clone for Value {
    fn clone(&self) -> (r: Value)
        ensures
            r@ == self@,
    {
        match self {
            Value::Absent => Value::Absent,
            Value::Int(n) => Value::Int(*n),
            Value::Dec(d) => Value::Dec(*d),
            Value::Text(s) => Value::Text(s.clone()),
        }
    }
}

impl PartialEq for Value {
    fn eq(&self, other: &Value) -> bool {
        self.eq_value(other)
    }
}

impl vstd::std_specs::cmp::PartialEqSpecImpl for Value {
    open spec fn obeys_eq_spec() -> bool {
        true
    }

    open spec fn eq_spec(&self, other: &Value) -> bool {
        self@ == other@
    }
}

/// The integer a value holds, if it holds one.
pub fn value_to_int(v: &Value) -> (r: Option<i64>)
    ensures
        r == (match v@ {
            ValueV::Int(n) => Some(n as i64),
            _ => None::<i64>,
        }),
{
    match v {
        Value::Int(n) => Some(*n),
        _ => None,
    }
}

/// The decimal a value holds; an integer is read as a decimal with no
/// fraction digits.
pub fn value_to_dec(v: &Value) -> (r: Option<Decimal>)
    ensures
        r == (match v@ {
            ValueV::Int(n) => Some(Decimal { mantissa: n as i64, scale: 0 }),
            ValueV::Dec(m, s) => Some(Decimal { mantissa: m as i64, scale: s as u32 }),
            _ => None::<Decimal>,
        }),
{
    match v {
        Value::Int(n) => Some(Decimal { mantissa: *n, scale: 0 }),
        Value::Dec(d) => Some(*d),
        _ => None,
    }
}

/// The string a value holds, if it holds one.
pub fn value_to_string(v: &Value) -> (r: Option<String>)
    ensures
        r matches Some(s) ==> v@ matches ValueV::Text(t) && s@ == t,
        r is None ==> !(v@ is Text),
{
    match v {
        Value::Text(s) => Some(s.clone()),
        _ => None,
    }
}

// ---------------------------------------------------------------------------
// The token grammar: which character sequences read as integers and decimals.
// ---------------------------------------------------------------------------

/// Whitespace recognized as a token separator.
pub open spec fn is_space_char(c: char) -> bool {
    c == ' ' || c == '\t' || c == '\n' || c == '\r'
}

pub open spec fn is_digit_char(c: char) -> bool {
    '0' as u32 <= c as u32 && c as u32 <= '9' as u32
}

pub open spec fn digit_val(c: char) -> nat {
    (c as u32 - '0' as u32) as nat
}

/// The number written by a sequence of decimal digits, most significant first.
pub open spec fn digits_val(s: Seq<char>) -> nat
    decreases s.len(),
{
    if s.len() == 0 {
        0
    } else {
        digits_val(s.drop_last()) * 10 + digit_val(s.last())
    }
}

pub open spec fn all_digits(s: Seq<char>) -> bool {
    forall|i: int| 0 <= i < s.len() ==> is_digit_char(#[trigger] s[i])
}

/// A non-empty run of digits, optionally preceded by a minus sign.
pub open spec fn is_int_token(s: Seq<char>) -> bool {
    if s.len() > 0 && s[0] == '-' {
        s.len() >= 2 && all_digits(s.skip(1))
    } else {
        s.len() >= 1 && all_digits(s)
    }
}

/// The integer an integer token denotes.
pub open spec fn int_token_val(s: Seq<char>) -> int {
    if s.len() > 0 && s[0] == '-' {
        -(digits_val(s.skip(1)) as int)
    } else {
        digits_val(s) as int
    }
}

/// The index of the first `.` in `s`, or `s.len()` if there is none.
pub open spec fn find_dot(s: Seq<char>) -> int
    decreases s.len(),
{
    if s.len() == 0 {
        0
    } else if s[0] == '.' {
        0
    } else {
        1 + find_dot(s.skip(1))
    }
}

/// Digits, a dot, digits — with at least one digit on each side and an
/// optional leading minus sign.
pub open spec fn is_dec_token(s: Seq<char>) -> bool {
    let b = if s.len() > 0 && s[0] == '-' {
        s.skip(1)
    } else {
        s
    };
    let k = find_dot(b);
    &&& 1 <= k < b.len() - 1
    &&& all_digits(b.take(k))
    &&& all_digits(b.skip(k + 1))
}

/// The digits of a decimal token with the dot removed, as one digit run.
pub open spec fn dec_token_digits(s: Seq<char>) -> Seq<char> {
    let b = if s.len() > 0 && s[0] == '-' {
        s.skip(1)
    } else {
        s
    };
    let k = find_dot(b);
    b.take(k) + b.skip(k + 1)
}

/// The signed mantissa of a decimal token.
pub open spec fn dec_token_mantissa(s: Seq<char>) -> int {
    if s.len() > 0 && s[0] == '-' {
        -(digits_val(dec_token_digits(s)) as int)
    } else {
        digits_val(dec_token_digits(s)) as int
    }
}

/// The number of digits after the dot of a decimal token.
pub open spec fn dec_token_scale(s: Seq<char>) -> nat {
    let b = if s.len() > 0 && s[0] == '-' {
        s.skip(1)
    } else {
        s
    };
    (b.len() - find_dot(b) - 1) as nat
}

// ---------------------------------------------------------------------------
// Trimming: what a raw chunk loses before it is read as a token.
// ---------------------------------------------------------------------------

pub open spec fn trim_front_ws(s: Seq<char>) -> Seq<char>
    decreases s.len(),
{
    if s.len() > 0 && is_space_char(s[0]) {
        trim_front_ws(s.skip(1))
    } else {
        s
    }
}

pub open spec fn trim_back_ws(s: Seq<char>) -> Seq<char>
    decreases s.len(),
{
    if s.len() > 0 && is_space_char(s.last()) {
        trim_back_ws(s.drop_last())
    } else {
        s
    }
}

pub open spec fn trim_back_paren(s: Seq<char>) -> Seq<char>
    decreases s.len(),
{
    if s.len() > 0 && s.last() == ')' {
        trim_back_paren(s.drop_last())
    } else {
        s
    }
}

pub open spec fn trim_front_paren(s: Seq<char>) -> Seq<char>
    decreases s.len(),
{
    if s.len() > 0 && s[0] == '(' {
        trim_front_paren(s.skip(1))
    } else {
        s
    }
}

/// What a raw chunk loses before being read: surrounding whitespace, then
/// trailing close-parens, then leading open-parens.
pub open spec fn token_trim(s: Seq<char>) -> Seq<char> {
    trim_front_paren(trim_back_paren(trim_back_ws(trim_front_ws(s))))
}

/// Whether the integer written by an integer token fits an `i64`.
pub open spec fn int_token_fits(s: Seq<char>) -> bool {
    i64::MIN <= int_token_val(s) <= i64::MAX
}

/// Whether a decimal token fits the [`Decimal`] representation.
pub open spec fn dec_token_fits(s: Seq<char>) -> bool {
    &&& i64::MIN <= dec_token_mantissa(s) <= i64::MAX
    &&& dec_token_scale(s) <= MAX_SCALE
}

/// How a raw chunk of input reads as a value: after trimming, an integer
/// if it looks like one and fits, else a decimal if it looks like one and
/// fits, else text if anything is left, else absent.
pub open spec fn turn_to_value_spec(s: Seq<char>) -> ValueV {
    let t = token_trim(s);
    if is_int_token(t) && int_token_fits(t) {
        ValueV::Int(int_token_val(t))
    } else if is_dec_token(t) && dec_token_fits(t) {
        ValueV::Dec(dec_token_mantissa(t), dec_token_scale(t))
    } else if t.len() > 0 {
        ValueV::Text(t)
    } else {
        ValueV::Absent
    }
}

// ---------------------------------------------------------------------------
// Executable character tests.
// ---------------------------------------------------------------------------

pub fn is_space(c: char) -> (r: bool)
    ensures
        r == is_space_char(c),
{
    c == ' ' || c == '\t' || c == '\n' || c == '\r'
}

pub fn is_digit(c: char) -> (r: bool)
    ensures
        r == is_digit_char(c),
{
    let u = c as u32;
    '0' as u32 <= u && u <= '9' as u32
}

fn digit_of(c: char) -> (r: u64)
    requires
        is_digit_char(c),
    ensures
        r == digit_val(c),
{
    (c as u32 - '0' as u32) as u64
}

/// The characters of a string, in order.
pub fn str_to_chars(s: &str) -> (r: Vec<char>)
    ensures
        r@ == s@,
{
    let n = s.unicode_len();
    let mut v: Vec<char> = Vec::new();
    let mut i: usize = 0;
    while i < n
        invariant
            i <= n,
            n == s@.len(),
            v@ == s@.take(i as int),
        decreases n - i,
    {
        v.push(s.get_char(i));
        proof {
            assert(v@ =~= s@.take(i + 1 as int));
        }
        i += 1;
    }
    proof {
        assert(v@ =~= s@);
    }
    v
}

/// Relies on `String: FromIterator<char>` (`collect`): the collected string
/// holds exactly the characters of the iterator, in order.
#[verifier::external_body]
pub fn chars_to_string(v: &Vec<char>) -> (r: String)
    ensures
        r@ == v@,
{
    v.iter().collect()
}

/// The window of `v` that survives [`token_trim`].
fn trim_bounds(v: &Vec<char>) -> (r: (usize, usize))
    ensures
        r.0 <= r.1 <= v@.len(),
        v@.subrange(r.0 as int, r.1 as int) == token_trim(v@),
{
    let ghost s = v@;
    let mut lo: usize = 0;
    let mut hi: usize = v.len();
    proof {
        assert(s.subrange(0, s.len() as int) =~= s);
    }
    while lo < hi && is_space(v[lo])
        invariant
            lo <= hi <= s.len(),
            v@ == s,
            trim_front_ws(s) == trim_front_ws(s.subrange(lo as int, hi as int)),
        decreases hi - lo,
    {
        proof {
            assert(s.subrange(lo as int, hi as int).skip(1) =~= s.subrange(
                lo + 1 as int,
                hi as int,
            ));
        }
        lo += 1;
    }
    let ghost t1 = s.subrange(lo as int, hi as int);
    proof {
        assert(trim_front_ws(s) == t1);
    }
    while lo < hi && is_space(v[hi - 1])
        invariant
            lo <= hi <= s.len(),
            v@ == s,
            trim_back_ws(t1) == trim_back_ws(s.subrange(lo as int, hi as int)),
        decreases hi - lo,
    {
        proof {
            assert(s.subrange(lo as int, hi as int).drop_last() =~= s.subrange(
                lo as int,
                hi - 1 as int,
            ));
        }
        hi -= 1;
    }
    let ghost t2 = s.subrange(lo as int, hi as int);
    proof {
        assert(trim_back_ws(t1) == t2);
    }
    while lo < hi && v[hi - 1] == ')'
        invariant
            lo <= hi <= s.len(),
            v@ == s,
            trim_back_paren(t2) == trim_back_paren(s.subrange(lo as int, hi as int)),
        decreases hi - lo,
    {
        proof {
            assert(s.subrange(lo as int, hi as int).drop_last() =~= s.subrange(
                lo as int,
                hi - 1 as int,
            ));
        }
        hi -= 1;
    }
    let ghost t3 = s.subrange(lo as int, hi as int);
    proof {
        assert(trim_back_paren(t2) == t3);
    }
    while lo < hi && v[lo] == '('
        invariant
            lo <= hi <= s.len(),
            v@ == s,
            trim_front_paren(t3) == trim_front_paren(s.subrange(lo as int, hi as int)),
        decreases hi - lo,
    {
        proof {
            assert(s.subrange(lo as int, hi as int).skip(1) =~= s.subrange(
                lo + 1 as int,
                hi as int,
            ));
        }
        lo += 1;
    }
    proof {
        assert(trim_front_paren(t3) == s.subrange(lo as int, hi as int));
    }
    (lo, hi)
}

proof fn lemma_digits_val_push(p: Seq<char>, c: char)
    ensures
        digits_val(p.push(c)) == digits_val(p) * 10 + digit_val(c),
{
    assert(p.push(c).drop_last() =~= p);
    assert(p.push(c).last() == c);
}

proof fn lemma_all_digits_no_dot(b: Seq<char>)
    requires
        all_digits(b),
    ensures
        find_dot(b) == b.len(),
    decreases b.len(),
{
    if b.len() > 0 {
        assert(is_digit_char(b[0]));
        assert(b[0] != '.');
        assert(all_digits(b.skip(1))) by {
            assert(forall|i: int| 0 <= i < b.skip(1).len() ==> b.skip(1)[i] == b[i + 1]);
        }
        lemma_all_digits_no_dot(b.skip(1));
    }
}

/// An integer token has no dot, so it is never a decimal token.
proof fn lemma_int_not_dec(t: Seq<char>)
    requires
        is_int_token(t),
    ensures
        !is_dec_token(t),
{
    let b = if t.len() > 0 && t[0] == '-' {
        t.skip(1)
    } else {
        t
    };
    lemma_all_digits_no_dot(b);
}

/// Whether every character of `v[from..to]` is a digit.
fn scan_all_digits(v: &Vec<char>, from: usize, to: usize) -> (r: bool)
    requires
        from <= to <= v@.len(),
    ensures
        r == all_digits(v@.subrange(from as int, to as int)),
{
    let ghost w = v@.subrange(from as int, to as int);
    let mut i = from;
    while i < to
        invariant
            from <= i <= to <= v@.len(),
            w == v@.subrange(from as int, to as int),
            forall|j: int| 0 <= j < i - from ==> is_digit_char(#[trigger] w[j]),
        decreases to - i,
    {
        if !is_digit(v[i]) {
            proof {
                assert(w[i - from] == v@[i as int]);
            }
            return false;
        }
        i += 1;
    }
    true
}

/// The cap that a digit accumulation may not exceed: `2^63` covers the
/// magnitude of every `i64`.
const DIGIT_CAP: u64 = 9223372036854775808;

/// Accumulates the digits of `v[from..to]` onto `acc0`, which already holds
/// the value of the ghost prefix `pre`; fails exactly when the total exceeds
/// `bound`.
fn digits_value_extend(
    v: &Vec<char>,
    from: usize,
    to: usize,
    acc0: u64,
    bound: u64,
    Ghost(pre): Ghost<Seq<char>>,
) -> (r: Option<u64>)
    requires
        from <= to <= v@.len(),
        all_digits(v@.subrange(from as int, to as int)),
        digits_val(pre) == acc0,
        acc0 <= bound,
        bound <= DIGIT_CAP,
    ensures
        r matches Some(x) ==> x == digits_val(pre + v@.subrange(from as int, to as int)) && x
            <= bound,
        r is None ==> digits_val(pre + v@.subrange(from as int, to as int)) > bound,
{
    let ghost w = v@.subrange(from as int, to as int);
    let mut acc: u64 = acc0;
    let mut toobig: bool = false;
    let mut i = from;
    proof {
        assert(pre + w.take(0) =~= pre);
    }
    while i < to
        invariant
            from <= i <= to <= v@.len(),
            w == v@.subrange(from as int, to as int),
            all_digits(w),
            bound <= DIGIT_CAP,
            !toobig ==> acc == digits_val(pre + w.take(i - from)) && acc <= bound,
            toobig ==> digits_val(pre + w.take(i - from)) > bound,
        decreases to - i,
    {
        let c = v[i];
        proof {
            assert(w[i - from] == c);
            assert(is_digit_char(c));
            assert((pre + w.take(i - from)).push(c) =~= pre + w.take(i - from + 1));
            lemma_digits_val_push(pre + w.take(i - from), c);
        }
        if !toobig {
            let d = digit_of(c);
            let nv: u128 = (acc as u128) * 10 + (d as u128);
            if nv > bound as u128 {
                toobig = true;
            } else {
                acc = nv as u64;
            }
        }
        i += 1;
    }
    proof {
        assert(w.take(to - from) =~= w);
    }
    if toobig {
        None
    } else {
        Some(acc)
    }
}

/// The largest magnitude a negative integer may have, and one more than the
/// largest a positive one may.
const I64_MAX_MAG: u64 = 9223372036854775807;

/// Reads a trimmed window of characters as a value, as [`turn_to_value_spec`]
/// says.
#[verifier::rlimit(60)]
fn classify_window(v: &Vec<char>, lo: usize, hi: usize) -> (r: Value)
    requires
        lo <= hi <= v@.len(),
        v@.subrange(lo as int, hi as int) == token_trim(v@),
    ensures
        r@ == turn_to_value_spec(v@),
{
    let ghost t = v@.subrange(lo as int, hi as int);
    if lo == hi {
        proof {
            assert(t.len() == 0);
        }
        return Value::Absent;
    }
    let neg = v[lo] == '-';
    let blo = if neg {
        lo + 1
    } else {
        lo
    };
    proof {
        if neg {
            assert(t.skip(1) =~= v@.subrange(blo as int, hi as int));
        } else {
            assert(t =~= v@.subrange(blo as int, hi as int));
        }
    }
    let ghost b = v@.subrange(blo as int, hi as int);
    let int_shape = blo < hi && scan_all_digits(v, blo, hi);
    proof {
        assert(int_shape == is_int_token(t));
    }
    if int_shape {
        let bound = if neg {
            DIGIT_CAP
        } else {
            I64_MAX_MAG
        };
        proof {
            assert(Seq::<char>::empty() + b =~= b);
        }
        match digits_value_extend(v, blo, hi, 0, bound, Ghost(Seq::<char>::empty())) {
            Some(x) => {
                let n: i64 = if neg {
                    if x == DIGIT_CAP {
                        i64::MIN
                    } else {
                        -(x as i64)
                    }
                } else {
                    x as i64
                };
                proof {
                    assert(int_token_fits(t));
                    assert(n as int == int_token_val(t));
                }
                return Value::Int(n);
            },
            None => {
                proof {
                    assert(!int_token_fits(t));
                    lemma_int_not_dec(t);
                }
                let w = copy_window(v, lo, hi);
                return Value::Text(chars_to_string(&w));
            },
        }
    }
    // Not an integer token: look for a decimal shape in the unsigned body.
    let mut k = blo;
    proof {
        assert(b.skip(0) =~= b);
    }
    while k < hi && v[k] != '.'
        invariant
            blo <= k <= hi <= v@.len(),
            b == v@.subrange(blo as int, hi as int),
            find_dot(b) == k - blo + find_dot(b.skip(k - blo)),
        decreases hi - k,
    {
        proof {
            assert(b.skip(k - blo)[0] == v@[k as int]);
            assert(b.skip(k - blo).skip(1) =~= b.skip(k - blo + 1));
        }
        k += 1;
    }
    proof {
        if k < hi {
            assert(b.skip(k - blo)[0] == v@[k as int]);
            assert(find_dot(b.skip(k - blo)) == 0);
        } else {
            assert(b.skip(k - blo) =~= Seq::<char>::empty());
        }
        assert(find_dot(b) == k - blo);
    }
    let dec_shape = blo < k && k < hi && k + 1 < hi && blo + 1 <= k && {
        let left = scan_all_digits(v, blo, k);
        let right = scan_all_digits(v, k + 1, hi);
        proof {
            assert(b.take(k - blo) =~= v@.subrange(blo as int, k as int));
            assert(b.skip(k - blo + 1) =~= v@.subrange(k + 1 as int, hi as int));
        }
        left && right
    };
    proof {
        assert(dec_shape == is_dec_token(t));
    }
    if dec_shape {
        let scale_usize = hi - k - 1;
        if scale_usize <= MAX_SCALE as usize {
            let bound = if neg {
                DIGIT_CAP
            } else {
                I64_MAX_MAG
            };
            proof {
                assert(Seq::<char>::empty() + b.take(k - blo) =~= v@.subrange(
                    blo as int,
                    k as int,
                ));
            }
            let first = digits_value_extend(v, blo, k, 0, bound, Ghost(Seq::<char>::empty()));
            match first {
                Some(x1) => {
                    proof {
                        assert(b.take(k - blo) + v@.subrange(k + 1 as int, hi as int)
                            =~= dec_token_digits(t));
                    }
                    match digits_value_extend(v, k + 1, hi, x1, bound, Ghost(b.take(k - blo))) {
                        Some(x) => {
                            let m: i64 = if neg {
                                if x == DIGIT_CAP {
                                    i64::MIN
                                } else {
                                    -(x as i64)
                                }
                            } else {
                                x as i64
                            };
                            let d = Decimal { mantissa: m, scale: scale_usize as u32 };
                            proof {
                                assert(dec_token_fits(t));
                                assert(m as int == dec_token_mantissa(t));
                                assert(scale_usize as nat == dec_token_scale(t));
                            }
                            return Value::Dec(d);
                        },
                        None => {
                            proof {
                                assert(!dec_token_fits(t));
                            }
                            let w = copy_window(v, lo, hi);
                            return Value::Text(chars_to_string(&w));
                        },
                    }
                },
                None => {
                    proof {
                        lemma_digits_val_append_ge(
                            Seq::<char>::empty() + b.take(k - blo),
                            v@.subrange(k + 1 as int, hi as int),
                        );
                        assert((Seq::<char>::empty() + b.take(k - blo)) + v@.subrange(
                            k + 1 as int,
                            hi as int,
                        ) =~= dec_token_digits(t));
                        assert(!dec_token_fits(t));
                    }
                    let w = copy_window(v, lo, hi);
                    return Value::Text(chars_to_string(&w));
                },
            }
        } else {
            proof {
                assert(!dec_token_fits(t));
            }
            let w = copy_window(v, lo, hi);
            return Value::Text(chars_to_string(&w));
        }
    }
    let w = copy_window(v, lo, hi);
    Value::Text(chars_to_string(&w))
}

proof fn lemma_digits_val_append_ge(p: Seq<char>, w: Seq<char>)
    ensures
        digits_val(p + w) >= digits_val(p),
    decreases w.len(),
{
    if w.len() == 0 {
        assert(p + w =~= p);
    } else {
        assert((p + w).drop_last() =~= p + w.drop_last());
        assert((p + w).last() == w.last());
        lemma_digits_val_append_ge(p, w.drop_last());
    }
}

/// Reads one raw token as a value: trims it, then tries integer, decimal,
/// and text in that order; an empty token is absent. The numeric grammar is
/// deliberately exact: an optional sign, digits, and at most [`MAX_SCALE`]
/// fraction digits, with the magnitude held in an `i64` mantissa — wider or
/// differently written numbers (scientific notation, a bare leading or
/// trailing dot) read as text, so that every number the model holds prints
/// back exactly as it was read.
pub fn turn_to_value(s: &str) -> (r: Value)
    ensures
        r@ == turn_to_value_spec(s@),
{
    let v = str_to_chars(s);
    let (lo, hi) = trim_bounds(&v);
    classify_window(&v, lo, hi)
}

/// Reads one raw token, given as its characters, as a value.
pub fn chars_to_value(v: &Vec<char>) -> (r: Value)
    ensures
        r@ == turn_to_value_spec(v@),
{
    let (lo, hi) = trim_bounds(v);
    classify_window(v, lo, hi)
}

/// A copy of `v[from..to]`.
fn copy_window(v: &Vec<char>, from: usize, to: usize) -> (r: Vec<char>)
    requires
        from <= to <= v@.len(),
    ensures
        r@ == v@.subrange(from as int, to as int),
{
    let mut out: Vec<char> = Vec::new();
    let mut i = from;
    while i < to
        invariant
            from <= i <= to <= v@.len(),
            out@ == v@.subrange(from as int, i as int),
        decreases to - i,
    {
        out.push(v[i]);
        proof {
            assert(v@.subrange(from as int, i as int).push(v@[i as int]) =~= v@.subrange(
                from as int,
                i + 1 as int,
            ));
        }
        i += 1;
    }
    out
}

// ---------------------------------------------------------------------------
// Printing: the canonical textual form of a value.
// ---------------------------------------------------------------------------

pub open spec fn digit_char(d: nat) -> char {
    if d == 0 {
        '0'
    } else if d == 1 {
        '1'
    } else if d == 2 {
        '2'
    } else if d == 3 {
        '3'
    } else if d == 4 {
        '4'
    } else if d == 5 {
        '5'
    } else if d == 6 {
        '6'
    } else if d == 7 {
        '7'
    } else if d == 8 {
        '8'
    } else {
        '9'
    }
}

/// The digits of `x`, least significant first.
pub open spec fn rev_whole(x: nat) -> Seq<char>
    decreases x,
{
    if x < 10 {
        seq![digit_char(x)]
    } else {
        seq![digit_char(x % 10)] + rev_whole(x / 10)
    }
}

/// The characters of a decimal with magnitude `x` and `k` fraction digits,
/// least significant first: `k` fraction digits, the dot, then the whole
/// part.
pub open spec fn rev_dec(x: nat, k: nat) -> Seq<char>
    decreases k,
{
    if k == 0 {
        seq!['.'] + rev_whole(x)
    } else {
        seq![digit_char(x % 10)] + rev_dec(x / 10, (k - 1) as nat)
    }
}

/// The canonical digits of an integer: minus sign for negatives, no leading
/// zeros.
pub open spec fn int_chars(n: int) -> Seq<char> {
    if n < 0 {
        seq!['-'] + rev_whole((-n) as nat).reverse()
    } else {
        rev_whole(n as nat).reverse()
    }
}

/// The canonical form of a decimal with signed mantissa `m` and `s` fraction
/// digits.
pub open spec fn dec_chars(m: int, s: nat) -> Seq<char> {
    if m < 0 {
        seq!['-'] + rev_dec((-m) as nat, s).reverse()
    } else {
        seq!['-'].take(0) + rev_dec(m as nat, s).reverse()
    }
}

/// How each value renders back to text.
pub open spec fn value_chars(v: ValueV) -> Seq<char> {
    match v {
        ValueV::Absent => Seq::<char>::empty(),
        ValueV::Int(n) => int_chars(n),
        ValueV::Dec(m, s) => dec_chars(m, s),
        ValueV::Text(t) => t,
    }
}

fn char_of_digit(d: u64) -> (r: char)
    requires
        d < 10,
    ensures
        r == digit_char(d as nat),
{
    match d {
        0 => '0',
        1 => '1',
        2 => '2',
        3 => '3',
        4 => '4',
        5 => '5',
        6 => '6',
        7 => '7',
        8 => '8',
        _ => '9',
    }
}

fn reverse_chars(v: &Vec<char>) -> (r: Vec<char>)
    ensures
        r@ == v@.reverse(),
{
    let mut out: Vec<char> = Vec::new();
    let mut i = v.len();
    while i > 0
        invariant
            i <= v@.len(),
            out@.len() == v@.len() - i,
            forall|j: int| 0 <= j < out@.len() ==> #[trigger] out@[j] == v@[v@.len() - 1 - j],
        decreases i,
    {
        out.push(v[i - 1]);
        i -= 1;
    }
    proof {
        assert(out@ =~= v@.reverse());
    }
    out
}

/// Pushes the digits of `x`, least significant first.
fn push_rev_whole(out: &mut Vec<char>, x0: u64)
    ensures
        final(out)@ == old(out)@ + rev_whole(x0 as nat),
{
    let mut x = x0;
    let ghost base = old(out)@;
    while x >= 10
        invariant
            base + rev_whole(x0 as nat) =~= out@ + rev_whole(x as nat),
        decreases x,
    {
        out.push(char_of_digit(x % 10));
        proof {
            assert(out@ =~= (out@.drop_last()) + seq![digit_char((x % 10) as nat)]);
            assert((out@.drop_last() + seq![digit_char((x % 10) as nat)]) + rev_whole(
                (x / 10) as nat,
            ) =~= out@.drop_last() + (seq![digit_char((x % 10) as nat)] + rev_whole(
                (x / 10) as nat,
            )));
        }
        x = x / 10;
    }
    out.push(char_of_digit(x));
    proof {
        assert(rev_whole(x as nat) == seq![digit_char(x as nat)]);
        assert(out@ =~= base + rev_whole(x0 as nat));
    }
}

/// The canonical textual form of a value: empty for absent, canonical digits
/// for numbers, the text itself for text.
pub fn value_as_string(v: &Value) -> (r: String)
    ensures
        r@ == value_chars(v@),
{
    let cs = value_to_chars(v);
    chars_to_string(&cs)
}

/// The characters of the canonical textual form of a value.
pub fn value_to_chars(v: &Value) -> (r: Vec<char>)
    ensures
        r@ == value_chars(v@),
{
    match v {
        Value::Absent => Vec::new(),
        Value::Text(s) => str_to_chars(s.as_str()),
        Value::Int(n) => {
            let neg = *n < 0;
            let mag: u64 = if *n < 0 {
                (-(*n as i128)) as u64
            } else {
                *n as u64
            };
            let mut out: Vec<char> = Vec::new();
            push_rev_whole(&mut out, mag);
            proof {
                assert(Seq::<char>::empty() + rev_whole(mag as nat) =~= rev_whole(mag as nat));
            }
            if neg {
                out.push('-');
            }
            let rev = reverse_chars(&out);
            proof {
                if neg {
                    assert((rev_whole(mag as nat) + seq!['-']).reverse() =~= seq!['-'] + rev_whole(
                        mag as nat,
                    ).reverse());
                }
                assert(rev@ =~= int_chars(*n as int));
            }
            rev
        },
        Value::Dec(d) => {
            let neg = d.mantissa < 0;
            let mag: u64 = if d.mantissa < 0 {
                (-(d.mantissa as i128)) as u64
            } else {
                d.mantissa as u64
            };
            let mut out: Vec<char> = Vec::new();
            let mut x = mag;
            let mut k: u32 = 0;
            while k < d.scale
                invariant
                    k <= d.scale,
                    rev_dec(mag as nat, d.scale as nat) =~= out@ + rev_dec(
                        x as nat,
                        (d.scale - k) as nat,
                    ),
                decreases d.scale - k,
            {
                out.push(char_of_digit(x % 10));
                proof {
                    assert(out@ =~= (out@.drop_last()) + seq![digit_char((x % 10) as nat)]);
                    assert((out@.drop_last() + seq![digit_char((x % 10) as nat)]) + rev_dec(
                        (x / 10) as nat,
                        (d.scale - k - 1) as nat,
                    ) =~= out@.drop_last() + (seq![digit_char((x % 10) as nat)] + rev_dec(
                        (x / 10) as nat,
                        (d.scale - k - 1) as nat,
                    )));
                }
                x = x / 10;
                k += 1;
            }
            out.push('.');
            proof {
                assert(out@ =~= (out@.drop_last()) + seq!['.']);
                assert(rev_dec(mag as nat, d.scale as nat) =~= out@.drop_last() + (seq!['.']
                    + rev_whole(x as nat)));
                assert(out@.drop_last() + (seq!['.'] + rev_whole(x as nat)) =~= out@ + rev_whole(
                    x as nat,
                ));
            }
            push_rev_whole(&mut out, x);
            if neg {
                out.push('-');
            }
            let rev = reverse_chars(&out);
            proof {
                if neg {
                    assert((rev_dec(mag as nat, d.scale as nat) + seq!['-']).reverse() =~= seq![
                        '-',
                    ] + rev_dec(mag as nat, d.scale as nat).reverse());
                }
                assert(rev@ =~= dec_chars(d.mantissa as int, d.scale as nat));
            }
            rev
        },
    }
}


// ---------------------------------------------------------------------------
// The value round trip: a printed value reads back as itself.
// ---------------------------------------------------------------------------

proof fn lemma_digit_char_props(d: nat)
    requires
        d < 10,
    ensures
        is_digit_char(digit_char(d)),
        digit_val(digit_char(d)) == d,
        digit_char(d) != '-',
        digit_char(d) != '.',
        digit_char(d) != '(',
        digit_char(d) != ')',
        !is_space_char(digit_char(d)),
{
}

proof fn lemma_digits_val_append_digit(s: Seq<char>, c: char)
    ensures
        digits_val(s.push(c)) == digits_val(s) * 10 + digit_val(c),
        all_digits(s) && is_digit_char(c) ==> all_digits(s.push(c)),
{
    assert(s.push(c).drop_last() =~= s);
    assert(s.push(c).last() == c);
    if all_digits(s) && is_digit_char(c) {
        assert forall|i: int| 0 <= i < s.push(c).len() implies is_digit_char(
            #[trigger] s.push(c)[i],
        ) by {
            if i < s.len() {
                assert(s.push(c)[i] == s[i]);
            }
        }
    }
}

/// The canonical digits of a number read back as that number.
proof fn lemma_rev_whole_digits(x: nat)
    ensures
        rev_whole(x).len() >= 1,
        all_digits(rev_whole(x).reverse()),
        digits_val(rev_whole(x).reverse()) == x,
        is_digit_char(rev_whole(x).reverse()[0]),
        is_digit_char(rev_whole(x).reverse().last()),
    decreases x,
{
    if x < 10 {
        lemma_digit_char_props(x);
        assert(rev_whole(x).reverse() =~= seq![digit_char(x)]);
        assert(digits_val(seq![digit_char(x)].drop_last()) == 0) by {
            assert(seq![digit_char(x)].drop_last() =~= Seq::<char>::empty());
        }
    } else {
        lemma_rev_whole_digits(x / 10);
        lemma_digit_char_props(x % 10);
        let tail = rev_whole(x / 10).reverse();
        assert(rev_whole(x).reverse() =~= tail.push(digit_char(x % 10)));
        lemma_digits_val_append_digit(tail, digit_char(x % 10));
        assert(digits_val(rev_whole(x).reverse()) == (x / 10) * 10 + x % 10);
        assert(rev_whole(x).reverse()[0] == tail[0]);
    }
}

/// The canonical integer token survives trimming unchanged.
proof fn lemma_trim_noop(s: Seq<char>)
    requires
        s.len() >= 1,
        !is_space_char(s[0]),
        s[0] != '(',
        !is_space_char(s.last()),
        s.last() != ')',
    ensures
        token_trim(s) == s,
{
}

/// A token with plain ends survives trimming unchanged.
pub proof fn lemma_trim_noop_public(s: Seq<char>)
    requires
        s.len() >= 1,
        !is_space_char(s[0]),
        s[0] != '(',
        !is_space_char(s.last()),
        s.last() != ')',
    ensures
        token_trim(s) == s,
{
    lemma_trim_noop(s);
}

/// A decimal token always carries at least one fraction digit.
pub proof fn lemma_dec_scale_pos(s: Seq<char>)
    requires
        is_dec_token(s),
    ensures
        dec_token_scale(s) >= 1,
{
}

/// A canonically printed integer reads back as itself: the integer half of
/// the value round trip.
pub proof fn lemma_int_print_read(n: int)
    requires
        i64::MIN <= n <= i64::MAX,
    ensures
        turn_to_value_spec(int_chars(n)) == ValueV::Int(n),
{
    let s = int_chars(n);
    if n >= 0 {
        lemma_rev_whole_digits(n as nat);
        lemma_trim_noop(s);
        assert(s[0] != '-');
        assert(is_int_token(s));
        assert(int_token_val(s) == n);
    } else {
        let mag = (-n) as nat;
        lemma_rev_whole_digits(mag);
        let body = rev_whole(mag).reverse();
        assert(s == seq!['-'] + body);
        assert(s[0] == '-');
        assert(s.last() == body.last()) by {
            assert(s[s.len() - 1] == body[body.len() - 1]);
        }
        lemma_trim_noop(s);
        assert(s.skip(1) =~= body);
        assert(is_int_token(s));
        assert(int_token_val(s) == -(digits_val(body) as int));
    }
}

/// The fraction digits of a decimal, most significant first, padded with
/// zeros to the full width.
spec fn padded_digits(x: nat, k: nat) -> Seq<char>
    decreases k,
{
    if k == 0 {
        Seq::empty()
    } else {
        padded_digits(x / 10, (k - 1) as nat).push(digit_char(x % 10))
    }
}

proof fn lemma_pow10_pos(k: nat)
    ensures
        pow10(k) >= 1,
    decreases k,
{
    if k > 0 {
        lemma_pow10_pos((k - 1) as nat);
    }
}

proof fn lemma_padded_digits(x: nat, k: nat)
    ensures
        padded_digits(x, k).len() == k,
        all_digits(padded_digits(x, k)),
        digits_val(padded_digits(x, k)) == x % pow10(k),
    decreases k,
{
    if k == 0 {
        assert(x % 1 == 0) by (nonlinear_arith);
    } else {
        lemma_padded_digits(x / 10, (k - 1) as nat);
        lemma_digit_char_props(x % 10);
        lemma_digits_val_append_digit(padded_digits(x / 10, (k - 1) as nat), digit_char(x % 10));
        // x % 10^k == ((x/10) % 10^(k-1)) * 10 + x % 10
        let p = pow10((k - 1) as nat);
        lemma_pow10_pos((k - 1) as nat);
        assert(pow10(k) == 10 * p);
        vstd::arithmetic::div_mod::lemma_fundamental_div_mod(x as int, 10);
        vstd::arithmetic::div_mod::lemma_fundamental_div_mod((x / 10) as int, p as int);
        vstd::arithmetic::div_mod::lemma_mod_bound((x / 10) as int, p as int);
        vstd::arithmetic::div_mod::lemma_mod_bound(x as int, 10);
        let q = (x / 10) as int / (p as int);
        let r = (x / 10) as int % (p as int);
        assert(x as int == (10 * p) * q + (r * 10 + (x as int % 10))) by (nonlinear_arith)
            requires
                x as int == 10 * ((x / 10) as int) + (x as int % 10),
                (x / 10) as int == (p as int) * q + r,
        ;
        assert(0 <= r * 10 + (x as int % 10) < 10 * p) by (nonlinear_arith)
            requires
                0 <= r < p,
                0 <= x as int % 10 < 10,
                1 <= p,
        ;
        vstd::arithmetic::div_mod::lemma_fundamental_div_mod_converse(
            x as int,
            (10 * p) as int,
            q,
            r * 10 + (x as int % 10),
        );
    }
}

/// The reversed form of a decimal's character stream splits into the whole
/// part's digits, the dot, and the padded fraction digits.
proof fn lemma_rev_dec_shape(x: nat, k: nat)
    ensures
        rev_dec(x, k).reverse() =~= rev_whole(x / pow10(k)).reverse() + seq!['.'] + padded_digits(
            x,
            k,
        ),
    decreases k,
{
    if k == 0 {
        assert(x / pow10(0) == x) by {
            assert(pow10(0) == 1);
            vstd::arithmetic::div_mod::lemma_div_basics(x as int);
        }
        assert(rev_dec(x, 0) == seq!['.'] + rev_whole(x));
        assert(rev_dec(x, 0).reverse() =~= rev_whole(x).reverse() + seq!['.'] + padded_digits(
            x,
            0,
        ));
    } else {
        lemma_rev_dec_shape(x / 10, (k - 1) as nat);
        let p = pow10((k - 1) as nat);
        lemma_pow10_pos((k - 1) as nat);
        assert(pow10(k) == 10 * p);
        assert((x / 10) / p == x / (10 * p)) by {
            vstd::arithmetic::div_mod::lemma_div_denominator(x as int, 10, p as int);
        }
        assert(rev_dec(x, k) == seq![digit_char(x % 10)] + rev_dec(x / 10, (k - 1) as nat));
        assert(rev_dec(x, k).reverse() =~= rev_dec(x / 10, (k - 1) as nat).reverse() + seq![
            digit_char(x % 10),
        ]);
        assert(rev_dec(x / 10, (k - 1) as nat).reverse() + seq![digit_char(x % 10)] =~= rev_whole(
            x / pow10(k),
        ).reverse() + seq!['.'] + padded_digits(x, k)) by {
            assert(padded_digits(x, k) == padded_digits(x / 10, (k - 1) as nat).push(
                digit_char(x % 10),
            ));
        }
    }
}

/// Where the dot stands in digits-dot-digits: right after the digits.
proof fn lemma_find_dot_after_digits(a: Seq<char>, rest: Seq<char>)
    requires
        all_digits(a),
        rest.len() >= 1,
        rest[0] == '.',
    ensures
        find_dot(a + rest) == a.len(),
    decreases a.len(),
{
    if a.len() == 0 {
        assert(a + rest =~= rest);
    } else {
        assert((a + rest)[0] == a[0]);
        lemma_digit_not_dot(a[0]);
        assert((a + rest).skip(1) =~= a.skip(1) + rest);
        assert(all_digits(a.skip(1))) by {
            assert(forall|i: int| 0 <= i < a.skip(1).len() ==> a.skip(1)[i] == a[i + 1]);
        }
        lemma_find_dot_after_digits(a.skip(1), rest);
    }
}

proof fn lemma_digit_not_dot(c: char)
    requires
        is_digit_char(c),
    ensures
        c != '.',
        c != '-',
{
}

/// The concatenated digit runs read as the whole number: high part scaled
/// past the low part, plus the low part.
proof fn lemma_digits_val_concat(a: Seq<char>, b: Seq<char>)
    ensures
        digits_val(a + b) == digits_val(a) * pow10(b.len() as nat) + digits_val(b),
    decreases b.len(),
{
    if b.len() == 0 {
        assert(a + b =~= a);
        assert(pow10(0) == 1);
    } else {
        assert((a + b).drop_last() =~= a + b.drop_last());
        assert((a + b).last() == b.last());
        lemma_digits_val_concat(a, b.drop_last());
        let pl = pow10(b.drop_last().len() as nat);
        assert(pow10(b.len() as nat) == 10 * pl);
        assert((digits_val(a) * pl + digits_val(b.drop_last())) * 10 + digit_val(b.last())
            == digits_val(a) * (10 * pl) + (digits_val(b.drop_last()) * 10 + digit_val(
            b.last(),
        ))) by (nonlinear_arith);
    }
}

/// A canonically printed decimal reads back as itself: the decimal half of
/// the value round trip. A fraction part must exist — the parser never
/// produces a decimal without one.
pub proof fn lemma_dec_print_read(m: int, s: nat)
    requires
        i64::MIN <= m <= i64::MAX,
        1 <= s <= MAX_SCALE,
    ensures
        turn_to_value_spec(dec_chars(m, s)) == ValueV::Dec(m, s),
{
    let mag = if m < 0 {
        (-m) as nat
    } else {
        m as nat
    };
    let t = dec_chars(m, s);
    lemma_rev_dec_shape(mag, s);
    let whole = rev_whole(mag / pow10(s)).reverse();
    let frac = padded_digits(mag, s);
    let body = whole + seq!['.'] + frac;
    assert(rev_dec(mag, s).reverse() == body);
    lemma_pow10_pos(s);
    lemma_rev_whole_digits(mag / pow10(s));
    lemma_padded_digits(mag, s);
    // The body survives trimming and is recognized as a decimal token.
    assert(body[0] == whole[0]);
    assert(body.last() == frac.last()) by {
        assert(body[body.len() - 1] == frac[frac.len() - 1]);
    }
    assert(is_digit_char(frac.last())) by {
        assert(frac.len() >= 1);
    }
    lemma_digit_char_is_plain(whole[0]);
    lemma_digit_char_is_plain(frac.last());
    lemma_find_dot_after_digits(whole, seq!['.'] + frac);
    assert((whole + seq!['.']) + frac =~= whole + (seq!['.'] + frac));
    assert(find_dot(body) == whole.len());
    assert(body.take(whole.len() as int) =~= whole);
    assert(body.skip(whole.len() as int + 1) =~= frac);
    // The digits with the dot removed read as the magnitude.
    lemma_digits_val_concat(whole, frac);
    assert(digits_val(whole) * pow10(s) + digits_val(frac) == (mag / pow10(s)) * pow10(s) + mag
        % pow10(s));
    vstd::arithmetic::div_mod::lemma_fundamental_div_mod(mag as int, pow10(s) as int);
    assert((mag / pow10(s)) * pow10(s) + mag % pow10(s) == mag) by (nonlinear_arith)
        requires
            mag as int == (pow10(s) as int) * ((mag / pow10(s)) as int) + (mag as int % (pow10(
                s,
            ) as int)),
            mag % pow10(s) == mag as int % (pow10(s) as int),
            mag / pow10(s) == mag as int / (pow10(s) as int),
    ;
    // A decimal token is never an integer token: the dot is not a digit.
    assert(body[whole.len() as int] == '.');
    if m < 0 {
        assert(t == seq!['-'] + body);
        assert(t[0] == '-');
        assert(t.last() == body.last()) by {
            assert(t[t.len() - 1] == body[body.len() - 1]);
        }
        lemma_trim_noop(t);
        assert(t.skip(1) =~= body);
        assert(!is_int_token(t)) by {
            assert(t.skip(1)[whole.len() as int] == '.');
            assert(!is_digit_char('.'));
        }
        assert(is_dec_token(t));
        assert(dec_token_digits(t) =~= whole + frac);
        assert(dec_token_mantissa(t) == m);
        assert(dec_token_scale(t) == s);
        assert(dec_token_fits(t));
    } else {
        assert(seq!['-'].take(0) + body =~= body);
        assert(t == body);
        lemma_trim_noop(t);
        assert(!is_int_token(t)) by {
            if t[0] == '-' {
                lemma_digit_not_dot(t[0]);
                assert(false);
            }
            assert(t[whole.len() as int] == '.');
            assert(!is_digit_char('.'));
        }
        assert(is_dec_token(t));
        assert(dec_token_digits(t) =~= whole + frac);
        assert(dec_token_mantissa(t) == m);
        assert(dec_token_scale(t) == s);
        assert(dec_token_fits(t));
    }
}

proof fn lemma_digit_char_is_plain(c: char)
    requires
        is_digit_char(c),
    ensures
        !is_space_char(c),
        c != '(',
        c != ')',
        c != '-',
        c != '.',
{
}

/// A printed value reads back as itself, for every value shape the parser
/// can produce: integers and decimals print canonically, a text token is
/// already trimmed and non-numeric, and the absent value prints to nothing.
pub open spec fn value_readback_wf(v: ValueV) -> bool {
    match v {
        ValueV::Absent => true,
        ValueV::Int(n) => i64::MIN <= n <= i64::MAX,
        ValueV::Dec(m, s) => i64::MIN <= m <= i64::MAX && 1 <= s <= MAX_SCALE,
        ValueV::Text(t) => {
            &&& token_trim(t) == t
            &&& t.len() > 0
            &&& !(is_int_token(t) && int_token_fits(t))
            &&& !(is_dec_token(t) && dec_token_fits(t))
        },
    }
}

/// The value round trip: printing a value and reading the token back gives
/// the value again. This is the token-level heart of
/// `parse(print(tree)) == tree`.
pub proof fn lemma_value_print_read_round_trip(v: ValueV)
    requires
        value_readback_wf(v),
    ensures
        turn_to_value_spec(value_chars(v)) == v,
{
    match v {
        ValueV::Absent => {
            assert(token_trim(Seq::<char>::empty()) == Seq::<char>::empty());
        },
        ValueV::Int(n) => {
            lemma_int_print_read(n);
        },
        ValueV::Dec(m, s) => {
            lemma_dec_print_read(m, s);
        },
        ValueV::Text(t) => {
        },
    }
}


/// A character a numeric token may hold: a digit, a minus sign, or a dot.
/// None of these is a quote, a space, or a parenthesis, so the tokenizer
/// gathers them into one chunk.
pub open spec fn plain_char(c: char) -> bool {
    is_digit_char(c) || c == '-' || c == '.'
}

/// Every character of a printed integer is plain.
pub proof fn lemma_int_chars_plain(n: int)
    ensures
        int_chars(n).len() >= 1,
        forall|i: int| 0 <= i < int_chars(n).len() ==> plain_char(#[trigger] int_chars(n)[i]),
{
    let s = int_chars(n);
    if n >= 0 {
        lemma_rev_whole_digits(n as nat);
    } else {
        lemma_rev_whole_digits((-n) as nat);
        let body = rev_whole((-n) as nat).reverse();
        assert forall|i: int| 0 <= i < s.len() implies plain_char(#[trigger] s[i]) by {
            if i > 0 {
                assert(s[i] == body[i - 1]);
            }
        }
    }
}

/// Every character of a printed decimal is plain.
pub proof fn lemma_dec_chars_plain(m: int, s: nat)
    ensures
        dec_chars(m, s).len() >= 1,
        forall|i: int| 0 <= i < dec_chars(m, s).len() ==> plain_char(#[trigger] dec_chars(m, s)[i]),
{
    let mag = if m < 0 {
        (-m) as nat
    } else {
        m as nat
    };
    let t = dec_chars(m, s);
    lemma_rev_dec_shape(mag, s);
    lemma_pow10_pos(s);
    lemma_rev_whole_digits(mag / pow10(s));
    lemma_padded_digits(mag, s);
    let whole = rev_whole(mag / pow10(s)).reverse();
    let frac = padded_digits(mag, s);
    let body = whole + seq!['.'] + frac;
    assert(rev_dec(mag, s).reverse() == body);
    assert forall|i: int| 0 <= i < body.len() implies plain_char(#[trigger] body[i]) by {
        if i < whole.len() {
            assert(body[i] == whole[i]);
        } else if i == whole.len() {
            assert(body[i] == (whole + seq!['.'])[i]);
        } else {
            assert(body[i] == frac[i - whole.len() - 1]);
        }
    }
    if m < 0 {
        assert(t == seq!['-'] + body);
        assert forall|i: int| 0 <= i < t.len() implies plain_char(#[trigger] t[i]) by {
            if i > 0 {
                assert(t[i] == body[i - 1]);
            }
        }
    } else {
        assert(seq!['-'].take(0) + body =~= body);
    }
}

// ---------------------------------------------------------------------------
// Decimal arithmetic needed by the board model.
// ---------------------------------------------------------------------------

pub open spec fn pow10(k: nat) -> nat
    decreases k,
{
    if k == 0 {
        1
    } else {
        10 * pow10((k - 1) as nat)
    }
}

/// The rational a decimal denotes, scaled to `10^-s`: the mantissa brought
/// from its own scale up to scale `s`.
pub open spec fn dec_at_scale(d: Decimal, s: nat) -> int {
    d.mantissa * pow10((s - d.scale) as nat)
}

/// The exact sum of two decimals at the larger of their scales, or nothing
/// where the mantissa leaves `i64` or the scales stand too far apart to
/// align within [`MAX_SCALE`] digits.
pub open spec fn dec_add_spec(a: Decimal, b: Decimal) -> Option<Decimal> {
    let s = if a.scale >= b.scale {
        a.scale as nat
    } else {
        b.scale as nat
    };
    if s - a.scale > MAX_SCALE || s - b.scale > MAX_SCALE {
        None
    } else {
        let sum = dec_at_scale(a, s) + dec_at_scale(b, s);
        if i64::MIN <= sum <= i64::MAX {
            Some(Decimal { mantissa: sum as i64, scale: s as u32 })
        } else {
            None
        }
    }
}

/// `10^k` for small `k`.
pub fn pow10_u64(k: u32) -> (r: u64)
    requires
        k <= MAX_SCALE,
    ensures
        r == pow10(k as nat),
{
    let mut r: u64 = 1;
    let mut i: u32 = 0;
    while i < k
        invariant
            i <= k <= MAX_SCALE,
            r == pow10(i as nat),
        decreases k - i,
    {
        proof {
            lemma_pow10_bound((i + 1) as nat);
            assert(pow10((i + 1) as nat) == 10 * pow10(i as nat));
        }
        r = r * 10;
        i += 1;
    }
    r
}

proof fn lemma_pow10_val18()
    ensures
        pow10(18) == 1000000000000000000,
{
    reveal_with_fuel(pow10, 20);
}

proof fn lemma_pow10_mono(a: nat, b: nat)
    requires
        a <= b,
    ensures
        pow10(a) <= pow10(b),
    decreases b,
{
    if a < b {
        lemma_pow10_mono(a, (b - 1) as nat);
        assert(pow10(b) == 10 * pow10((b - 1) as nat));
    }
}

proof fn lemma_pow10_bound(k: nat)
    requires
        k <= MAX_SCALE,
    ensures
        1 <= pow10(k) <= 1000000000000000000,
{
    lemma_pow10_mono(0, k);
    lemma_pow10_mono(k, MAX_SCALE as nat);
    lemma_pow10_val18();
}

/// The exact sum of two decimals, or nothing where it cannot be represented.
pub fn dec_add(a: Decimal, b: Decimal) -> (r: Option<Decimal>)
    ensures
        r == dec_add_spec(a, b),
{
    let s: u32 = if a.scale >= b.scale {
        a.scale
    } else {
        b.scale
    };
    if s - a.scale > MAX_SCALE || s - b.scale > MAX_SCALE {
        return None;
    }
    let pa = pow10_u64(s - a.scale);
    let pb = pow10_u64(s - b.scale);
    proof {
        lemma_pow10_bound((s - a.scale) as nat);
        lemma_pow10_bound((s - b.scale) as nat);
        let ma = a.mantissa as int;
        let mb = b.mantissa as int;
        let qa = pa as int;
        let qb = pb as int;
        assert((-9223372036854775808 * 1000000000000000000 <= ma * qa <= 9223372036854775807
            * 1000000000000000000) && (-9223372036854775808 * 1000000000000000000 <= mb * qb
            <= 9223372036854775807 * 1000000000000000000)) by (nonlinear_arith)
            requires
                -9223372036854775808 <= ma <= 9223372036854775807,
                -9223372036854775808 <= mb <= 9223372036854775807,
                1 <= qa <= 1000000000000000000,
                1 <= qb <= 1000000000000000000,
        ;
    }
    let va: i128 = (a.mantissa as i128) * (pa as i128);
    let vb: i128 = (b.mantissa as i128) * (pb as i128);
    let sum: i128 = va + vb;
    if sum < i64::MIN as i128 || sum > i64::MAX as i128 {
        return None;
    }
    Some(Decimal { mantissa: sum as i64, scale: s })
}

} // verus!
