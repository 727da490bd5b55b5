//! Bencode: integers, byte strings, lists and dictionaries, with an encoder
//! and a recursive-descent decoder whose results are tied to one spec
//! function, `enc`.

use vstd::prelude::*;

verus! {

broadcast use {
    vstd::seq::axiom_seq_index_decreases,
    vstd::seq::axiom_seq_subrange_decreases,
    vstd::std_specs::vec::axiom_vec_decreases_to_view,
    vstd::std_specs::vec::axiom_vec_index_decreases,
};

/// Why a buffer could not be decoded into torrent metadata.
#[derive(Debug, Clone, Copy, PartialEq, Eq, Structural)]
pub enum DecodeError {
    /// Malformed framing: a byte that starts no value, a bad number, a missing
    /// terminator, or bytes left over after the top-level value.
    Syntax,
    /// The input ended inside an open value.
    Truncated,
    /// A field holds a value of the wrong kind.
    TypeMismatch,
    /// A required field of the info dictionary is absent.
    MissingField,
}

/// A decoded bencode value. Dictionary entries keep the order they had in
/// the input.
#[derive(Debug)]
pub enum Value {
    Int(i64),
    Bytes(Vec<u8>),
    List(Vec<Value>),
    Dict(Vec<(Vec<u8>, Value)>),
}

/// The ASCII decimal digits of `n`, without leading zeros.
pub open spec fn decimal(n: nat) -> Seq<u8>
    decreases n,
{
    if n < 10 {
        seq![(48 + n) as u8]
    } else {
        decimal(n / 10).push((48 + n % 10) as u8)
    }
}

/// The decimal text of a signed integer: a minus sign before negative ones.
pub open spec fn int_text(n: int) -> Seq<u8> {
    if n < 0 {
        seq![45u8] + decimal((-n) as nat)
    } else {
        decimal(n as nat)
    }
}

/// A byte string: its length in decimal, a colon, then the bytes.
pub open spec fn bytes_text(b: Seq<u8>) -> Seq<u8> {
    decimal(b.len()) + seq![58u8] + b
}

/// The bencoding of a value.
pub open spec fn enc(v: Value) -> Seq<u8>
    decreases v,
{
    match v {
        Value::Int(n) => seq![105u8] + int_text(n as int) + seq![101u8],
        Value::Bytes(b) => bytes_text(b@),
        Value::List(l) => seq![108u8] + enc_items(l@) + seq![101u8],
        Value::Dict(d) => seq![100u8] + enc_entries(d@) + seq![101u8],
    }
}

/// The bencodings of a sequence of values, one after the other.
pub open spec fn enc_items(s: Seq<Value>) -> Seq<u8>
    decreases s,
{
    if s.len() == 0 {
        Seq::empty()
    } else {
        enc_items(s.drop_last()) + enc(s.last())
    }
}

/// Dictionary entries, each as its key's byte string followed by its value.
pub open spec fn enc_entries(s: Seq<(Vec<u8>, Value)>) -> Seq<u8>
    decreases s,
{
    if s.len() == 0 {
        Seq::empty()
    } else {
        enc_entries(s.drop_last()) + bytes_text(s.last().0@) + enc(s.last().1)
    }
}


/// Appends the decimal digits of `n`.
fn push_decimal(n: u64, out: &mut Vec<u8>)
    ensures
        final(out)@ == old(out)@ + decimal(n as nat),
    decreases n,
{
    if n >= 10 {
        push_decimal(n / 10, out);
    }
    out.push((48 + n % 10) as u8);
    proof {
        assert(final(out)@ =~= old(out)@ + decimal(n as nat));
    }
}

/// Appends the decimal text of a signed integer.
pub(crate) fn push_int_text(n: i64, out: &mut Vec<u8>)
    ensures
        final(out)@ == old(out)@ + int_text(n as int),
{
    if n < 0 {
        out.push(45u8);
        let m: u64 = (-(n as i128)) as u64;
        push_decimal(m, out);
        assert(final(out)@ =~= old(out)@ + int_text(n as int));
    } else {
        push_decimal(n as u64, out);
    }
}

/// Appends a byte string: its length, a colon and its bytes.
pub fn push_bytes_text(b: &Vec<u8>, out: &mut Vec<u8>)
    ensures
        final(out)@ == old(out)@ + bytes_text(b@),
{
    push_decimal(b.len() as u64, out);
    out.push(58u8);
    let ghost mid = out@;
    let mut i: usize = 0;
    while i < b.len()
        invariant
            0 <= i <= b.len(),
            out@ == mid + b@.subrange(0, i as int),
        decreases b.len() - i,
    {
        out.push(b[i]);
        i = i + 1;
        assert(out@ =~= mid + b@.subrange(0, i as int));
    }
    assert(b@.subrange(0, b.len() as int) =~= b@);
    assert(final(out)@ =~= old(out)@ + bytes_text(b@));
}

/// Appends the bencoding of `v`.
pub fn push_value(v: &Value, out: &mut Vec<u8>)
    ensures
        final(out)@ == old(out)@ + enc(*v),
    decreases v,
{
    match v {
        Value::Int(n) => {
            out.push(105u8);
            push_int_text(*n, out);
            out.push(101u8);
            assert(final(out)@ =~= old(out)@ + enc(*v));
        },
        Value::Bytes(b) => {
            push_bytes_text(b, out);
        },
        Value::List(l) => {
            out.push(108u8);
            let ghost start = out@;
            let mut i: usize = 0;
            while i < l.len()
                invariant
                    0 <= i <= l.len(),
                    *v == Value::List(*l),
                    out@ == start + enc_items(l@.subrange(0, i as int)),
                decreases l.len() - i,
            {
                proof {
                    assert(decreases_to!(*v => v->List_0));
                    assert(decreases_to!(*l => l[i as int]));
                    assert(decreases_to!(*v => l[i as int]));
                }
                push_value(&l[i], out);
                proof {
                    let s = l@.subrange(0, i + 1);
                    assert(s.drop_last() =~= l@.subrange(0, i as int));
                    assert(out@ =~= start + enc_items(s));
                }
                i = i + 1;
            }
            out.push(101u8);
            assert(l@.subrange(0, l.len() as int) =~= l@);
            assert(final(out)@ =~= old(out)@ + enc(*v));
        },
        Value::Dict(d) => {
            out.push(100u8);
            let ghost start = out@;
            let mut i: usize = 0;
            while i < d.len()
                invariant
                    0 <= i <= d.len(),
                    *v == Value::Dict(*d),
                    out@ == start + enc_entries(d@.subrange(0, i as int)),
                decreases d.len() - i,
            {
                proof {
                    assert(decreases_to!(*v => v->Dict_0));
                    assert(decreases_to!(*d => d[i as int]));
                    assert(decreases_to!(d[i as int] => d[i as int].1));
                    assert(decreases_to!(*v => d[i as int].1));
                }
                push_bytes_text(&d[i].0, out);
                push_value(&d[i].1, out);
                proof {
                    let s = d@.subrange(0, i + 1);
                    assert(s.drop_last() =~= d@.subrange(0, i as int));
                    assert(out@ =~= start + enc_entries(s));
                }
                i = i + 1;
            }
            out.push(101u8);
            assert(d@.subrange(0, d.len() as int) =~= d@);
            assert(final(out)@ =~= old(out)@ + enc(*v));
        },
    }
}

/// The bencoding of `v`.
pub fn encode(v: &Value) -> (r: Vec<u8>)
    ensures
        r@ == enc(*v),
{
    let mut out: Vec<u8> = Vec::new();
    push_value(v, &mut out);
    assert(out@ =~= enc(*v));
    out
}


pub open spec fn is_digit(b: u8) -> bool {
    48 <= b <= 57
}

/// Whether `b` can start a bencoded value.
pub open spec fn starts_value(b: u8) -> bool {
    b == 105 || b == 108 || b == 100 || is_digit(b)
}

/// The number that a run of ASCII digits denotes.
pub open spec fn digits_val(s: Seq<u8>) -> nat
    decreases s.len(),
{
    if s.len() == 0 {
        0
    } else {
        digits_val(s.drop_last()) * 10 + (s.last() - 48) as nat
    }
}

proof fn lemma_digits_val_lower(s: Seq<u8>)
    requires
        s.len() >= 1,
        forall|k: int| 0 <= k < s.len() ==> is_digit(#[trigger] s[k]),
    ensures
        digits_val(s) >= s[0] - 48,
    decreases s.len(),
{
    if s.len() > 1 {
        let p = s.drop_last();
        lemma_digits_val_lower(p);
        assert(p[0] == s[0]);
    }
}

/// A run of digits with no leading zero is the decimal text of its value.
proof fn lemma_decimal_of_digits(s: Seq<u8>)
    requires
        s.len() >= 1,
        s.len() == 1 || s[0] != 48,
        forall|k: int| 0 <= k < s.len() ==> is_digit(#[trigger] s[k]),
    ensures
        decimal(digits_val(s)) == s,
    decreases s.len(),
{
    if s.len() == 1 {
        assert(s.drop_last() =~= Seq::<u8>::empty());
        assert(digits_val(s.drop_last()) == 0);
        assert(digits_val(s) == (s[0] - 48) as nat);
        assert(decimal(digits_val(s)) =~= seq![s[0]]);
        assert(seq![s[0]] =~= s);
    } else {
        let p = s.drop_last();
        assert(p[0] == s[0]);
        lemma_decimal_of_digits(p);
        lemma_digits_val_lower(p);
        let q = digits_val(p);
        let d = (s.last() - 48) as nat;
        let v = q * 10 + d;
        assert(v / 10 == q && v % 10 == d && v >= 10) by (nonlinear_arith)
            requires
                q >= 1,
                d < 10,
                v == q * 10 + d,
        ;
        assert(decimal(v) =~= s);
    }
}

/// The decimal text of `n` is a run of digits with no leading zero that
/// denotes `n`.
proof fn lemma_decimal_digits(n: nat)
    ensures
        decimal(n).len() >= 1,
        forall|k: int| 0 <= k < decimal(n).len() ==> is_digit(#[trigger] decimal(n)[k]),
        decimal(n).len() == 1 || decimal(n)[0] != 48,
        digits_val(decimal(n)) == n,
        n < 10 <==> decimal(n).len() == 1,
    decreases n,
{
    if n < 10 {
        let s = decimal(n);
        assert(s.drop_last() =~= Seq::<u8>::empty());
        assert(digits_val(s.drop_last()) == 0);
    } else {
        lemma_decimal_digits(n / 10);
        let p = decimal(n / 10);
        let s = decimal(n);
        assert(s.drop_last() =~= p);
        assert(s[0] == p[0]);
        assert forall|k: int| 0 <= k < s.len() implies is_digit(#[trigger] s[k]) by {
            if k < p.len() {
                assert(s[k] == p[k]);
            }
        }
        if p.len() == 1 {
            assert(n / 10 >= 1);
            assert(p[0] == (48 + n / 10) as u8);
        }
    }
}

/// The value of a prefix of a run of digits is at most that of the run.
proof fn lemma_digits_val_prefix(s: Seq<u8>, j: int)
    requires
        0 <= j <= s.len(),
        forall|k: int| 0 <= k < s.len() ==> is_digit(#[trigger] s[k]),
    ensures
        digits_val(s.subrange(0, j)) <= digits_val(s),
    decreases s.len(),
{
    if j < s.len() {
        let p = s.drop_last();
        assert forall|k: int| 0 <= k < p.len() implies is_digit(#[trigger] p[k]) by {
            assert(p[k] == s[k]);
        }
        lemma_digits_val_prefix(p, j);
        assert(p.subrange(0, j) =~= s.subrange(0, j));
    } else {
        assert(s.subrange(0, j) =~= s);
    }
}

/// The first byte of an encoding tells its kind; none starts with `e`.
proof fn lemma_enc_first(v: Value)
    ensures
        enc(v).len() >= 1,
        v is Int ==> enc(v)[0] == 105,
        v is Bytes ==> is_digit(enc(v)[0]),
        v is List ==> enc(v)[0] == 108,
        v is Dict ==> enc(v)[0] == 100,
        starts_value(enc(v)[0]),
{
    if let Value::Bytes(b) = v {
        lemma_decimal_digits(b@.len());
        assert(enc(v)[0] == decimal(b@.len())[0]);
    }
}

/// The items before index `j` encode to a prefix of the whole list's encoding.
proof fn lemma_items_prefix(l: Seq<Value>, j: int)
    requires
        0 <= j <= l.len(),
    ensures
        enc_items(l.subrange(0, j)).len() <= enc_items(l).len(),
        enc_items(l).subrange(0, enc_items(l.subrange(0, j)).len() as int) == enc_items(
            l.subrange(0, j),
        ),
    decreases l.len(),
{
    if j == l.len() {
        assert(l.subrange(0, j) =~= l);
        assert(enc_items(l).subrange(0, enc_items(l).len() as int) =~= enc_items(l));
    } else {
        let p = l.drop_last();
        lemma_items_prefix(p, j);
        assert(p.subrange(0, j) =~= l.subrange(0, j));
        let a = enc_items(l.subrange(0, j));
        assert(enc_items(l) == enc_items(p) + enc(l.last()));
        assert(enc_items(l).subrange(0, a.len() as int) =~= enc_items(p).subrange(0, a.len() as int));
    }
}

/// The entries before index `j` encode to a prefix of the whole dictionary's
/// encoding.
proof fn lemma_entries_prefix(l: Seq<(Vec<u8>, Value)>, j: int)
    requires
        0 <= j <= l.len(),
    ensures
        enc_entries(l.subrange(0, j)).len() <= enc_entries(l).len(),
        enc_entries(l).subrange(0, enc_entries(l.subrange(0, j)).len() as int) == enc_entries(
            l.subrange(0, j),
        ),
    decreases l.len(),
{
    if j == l.len() {
        assert(l.subrange(0, j) =~= l);
        assert(enc_entries(l).subrange(0, enc_entries(l).len() as int) =~= enc_entries(l));
    } else {
        let p = l.drop_last();
        lemma_entries_prefix(p, j);
        assert(p.subrange(0, j) =~= l.subrange(0, j));
        let a = enc_entries(l.subrange(0, j));
        assert(enc_entries(l) == enc_entries(p) + bytes_text(l.last().0@) + enc(l.last().1));
        assert(enc_entries(l).subrange(0, a.len() as int) =~= enc_entries(p).subrange(
            0,
            a.len() as int,
        ));
    }
}

/// Within a list's encoding, item `k` starts right after the items before it.
proof fn lemma_list_item_at(t: Value, k: int)
    requires
        t is List,
        0 <= k < t->List_0@.len(),
    ensures
        ({
            let l = t->List_0@;
            let a: int = 1 + enc_items(l.subrange(0, k)).len() as int;
            let e = enc(l[k]);
            a + e.len() < enc(t).len() && enc(t).subrange(a, a + e.len()) == e
        }),
{
    let l = t->List_0@;
    lemma_items_prefix(l, k + 1);
    let p = l.subrange(0, k + 1);
    assert(p.drop_last() =~= l.subrange(0, k));
    let a: int = 1 + enc_items(l.subrange(0, k)).len() as int;
    let e = enc(l[k]);
    assert(enc_items(p) == enc_items(l.subrange(0, k)) + e);
    assert(enc(t).subrange(a, a + e.len()) =~= enc_items(l).subrange(0, enc_items(p).len() as int).subrange(a - 1, a - 1 + e.len()));
}

/// A list's encoding ends with the terminator right after its items.
proof fn lemma_list_end(t: Value)
    requires
        t is List,
    ensures
        enc(t).len() == 2 + enc_items(t->List_0@).len(),
        enc(t)[1 + enc_items(t->List_0@).len() as int] == 101,
        t->List_0@.subrange(0, t->List_0@.len() as int) == t->List_0@,
{
    assert(t->List_0@.subrange(0, t->List_0@.len() as int) =~= t->List_0@);
}

/// Within a dictionary's encoding, entry `k` (key, then value) starts right
/// after the entries before it.
proof fn lemma_dict_entry_at(t: Value, k: int)
    requires
        t is Dict,
        0 <= k < t->Dict_0@.len(),
    ensures
        ({
            let l = t->Dict_0@;
            let a: int = 1 + enc_entries(l.subrange(0, k)).len() as int;
            let e = bytes_text(l[k].0@) + enc(l[k].1);
            a + e.len() < enc(t).len() && enc(t).subrange(a, a + e.len()) == e
        }),
{
    let l = t->Dict_0@;
    lemma_entries_prefix(l, k + 1);
    let p = l.subrange(0, k + 1);
    assert(p.drop_last() =~= l.subrange(0, k));
    let a: int = 1 + enc_entries(l.subrange(0, k)).len() as int;
    let e = bytes_text(l[k].0@) + enc(l[k].1);
    assert(enc_entries(p) =~= enc_entries(l.subrange(0, k)) + e);
    assert(enc(t).subrange(a, a + e.len()) =~= enc_entries(l).subrange(0, enc_entries(p).len() as int).subrange(a - 1, a - 1 + e.len()));
}

/// A dictionary's encoding ends with the terminator right after its entries.
proof fn lemma_dict_end(t: Value)
    requires
        t is Dict,
    ensures
        enc(t).len() == 2 + enc_entries(t->Dict_0@).len(),
        enc(t)[1 + enc_entries(t->Dict_0@).len() as int] == 101,
        t->Dict_0@.subrange(0, t->Dict_0@.len() as int) == t->Dict_0@,
{
    assert(t->Dict_0@.subrange(0, t->Dict_0@.len() as int) =~= t->Dict_0@);
}

/// A part of bytes held at `pos` is held at its own offset.
proof fn lemma_holds_part(buf: Seq<u8>, pos: int, e: Seq<u8>, a: int, b: int)
    requires
        holds_at(buf, pos, e),
        0 <= a <= b <= e.len(),
    ensures
        holds_at(buf, pos + a, e.subrange(a, b)),
{
    assert(buf.subrange(pos + a, pos + b) =~= buf.subrange(pos, pos + e.len()).subrange(a, b));
}

/// Whether `buf` ends at some point inside the bytes `e` placed at `pos`:
/// what is there agrees with `e`, but `e` does not fit.
pub open spec fn cut_at(buf: Seq<u8>, pos: int, e: Seq<u8>) -> bool {
    0 <= pos <= buf.len() && buf.len() < pos + e.len() && buf.subrange(pos, buf.len() as int)
        == e.subrange(0, buf.len() - pos)
}

/// A part of bytes cut short at `pos`: held whole if it fits, else cut.
proof fn lemma_cut_part(buf: Seq<u8>, pos: int, e: Seq<u8>, a: int, b: int)
    requires
        cut_at(buf, pos, e),
        0 <= a <= b <= e.len(),
        pos + a <= buf.len(),
    ensures
        pos + b <= buf.len() ==> holds_at(buf, pos + a, e.subrange(a, b)),
        pos + b > buf.len() ==> cut_at(buf, pos + a, e.subrange(a, b)),
{
    if pos + b <= buf.len() {
        assert(buf.subrange(pos + a, pos + b) =~= buf.subrange(pos, buf.len() as int).subrange(a, b));
        assert(e.subrange(0, buf.len() - pos).subrange(a, b) =~= e.subrange(a, b));
    } else {
        assert(buf.subrange(pos + a, buf.len() as int) =~= buf.subrange(pos, buf.len() as int).subrange(a, buf.len() - pos));
        assert(e.subrange(a, b).subrange(0, buf.len() - (pos + a)) =~= e.subrange(0, buf.len() - pos).subrange(a, buf.len() - pos));
    }
}

/// Whether `buf` holds the bytes `e` at `pos`.
pub open spec fn holds_at(buf: Seq<u8>, pos: int, e: Seq<u8>) -> bool {
    0 <= pos && pos + e.len() <= buf.len() && buf.subrange(pos, pos + e.len()) == e
}

/// Reads the digits of a natural number at `pos`, with no leading zero.
fn parse_natural(buf: &[u8], pos: usize, Ghost(n): Ghost<nat>) -> (r: Result<(u64, usize), DecodeError>)
    requires
        pos <= buf.len(),
    ensures
        holds_at(buf@, pos as int, decimal(n)) && n <= u64::MAX && (pos + decimal(n).len()
            == buf.len() || !is_digit(buf@[pos + decimal(n).len()])) ==> r == Ok::<
            (u64, usize),
            DecodeError,
        >((n as u64, (pos + decimal(n).len()) as usize)),
        cut_at(buf@, pos as int, decimal(n)) && n <= u64::MAX ==> (r == Err::<(u64, usize), DecodeError>(
            DecodeError::Truncated,
        ) || (r matches Ok((m, end)) && end == buf.len())),
        r matches Ok((n, end)) ==> pos < end <= buf.len()
            && buf@.subrange(pos as int, end as int) == decimal(n as nat),
        pos == buf.len() ==> r == Err::<(u64, usize), DecodeError>(DecodeError::Truncated),
        pos < buf.len() && !is_digit(buf@[pos as int]) ==> r == Err::<(u64, usize), DecodeError>(
            DecodeError::Syntax,
        ),
{
    let ghost dec = decimal(n);
    let ghost hit = holds_at(buf@, pos as int, dec) && n <= u64::MAX && (pos + dec.len()
        == buf.len() || !is_digit(buf@[pos + dec.len()]));
    let ghost cut = cut_at(buf@, pos as int, dec) && n <= u64::MAX;
    proof {
        lemma_decimal_digits(n);
    }
    if pos == buf.len() {
        return Err(DecodeError::Truncated);
    }
    let mut i: usize = pos;
    let mut acc: u64 = 0;
    while i < buf.len() && 48 <= buf[i] && buf[i] <= 57
        invariant
            pos <= i <= buf.len(),
            acc as nat == digits_val(buf@.subrange(pos as int, i as int)),
            forall|k: int| pos <= k < i ==> is_digit(#[trigger] buf@[k]),
            dec == decimal(n),
            hit == (holds_at(buf@, pos as int, dec) && n <= u64::MAX && (pos + dec.len()
                == buf.len() || !is_digit(buf@[pos + dec.len()]))),
            hit ==> i <= pos + dec.len(),
            cut == (cut_at(buf@, pos as int, dec) && n <= u64::MAX),
        decreases buf.len() - i,
    {
        let d: u64 = (buf[i] - 48) as u64;
        assert(cut ==> acc * 10 + d <= u64::MAX) by {
            if cut {
                lemma_decimal_digits(n);
                assert(buf@.subrange(pos as int, i + 1) =~= dec.subrange(0, i + 1 - pos));
                lemma_digits_val_prefix(dec, i + 1 - pos);
                let t = buf@.subrange(pos as int, i + 1);
                assert(t.drop_last() =~= buf@.subrange(pos as int, i as int));
            }
        }
        assert(hit ==> acc * 10 + d <= u64::MAX) by {
            if hit {
                lemma_decimal_digits(n);
                assert(i < pos + dec.len());
                assert(buf@.subrange(pos as int, i + 1) =~= dec.subrange(0, i + 1 - pos));
                lemma_digits_val_prefix(dec, i + 1 - pos);
                let t = buf@.subrange(pos as int, i + 1);
                assert(t.drop_last() =~= buf@.subrange(pos as int, i as int));
            }
        }
        if acc > (u64::MAX - d) / 10 {
            proof {
                if hit || cut {
                    assert(acc * 10 + d > u64::MAX) by (nonlinear_arith)
                        requires
                            acc > (u64::MAX - d) / 10,
                            d <= 9,
                    ;
                }
            }
            return Err(DecodeError::Syntax);
        }
        assert(acc * 10 + d <= u64::MAX) by (nonlinear_arith)
            requires
                acc <= (u64::MAX - d) / 10,
                d <= 9,
        ;
        proof {
            let t = buf@.subrange(pos as int, i + 1);
            assert(t.drop_last() =~= buf@.subrange(pos as int, i as int));
        }
        acc = acc * 10 + d;
        i = i + 1;
    }
    proof {
        if hit {
            lemma_decimal_digits(n);
            if i < pos + dec.len() {
                assert(buf@[i as int] == dec[i - pos]);
            }
            assert(i == pos + dec.len());
            assert(buf@[pos as int] == dec[0]);
        }
        if cut {
            lemma_decimal_digits(n);
            if i < buf.len() {
                assert(buf@[i as int] == buf@.subrange(pos as int, buf.len() as int)[i - pos]);
                assert(buf@[i as int] == dec[i - pos]);
            }
            assert(i == buf.len());
            assert(buf@[pos as int] == buf@.subrange(pos as int, buf.len() as int)[0]);
            assert(buf@[pos as int] == dec[0]);
        }
    }
    if i == pos {
        return Err(DecodeError::Syntax);
    }
    if buf[pos] == 48 && i > pos + 1 {
        return Err(DecodeError::Syntax);
    }
    proof {
        let t = buf@.subrange(pos as int, i as int);
        assert forall|k: int| 0 <= k < t.len() implies is_digit(#[trigger] t[k]) by {
            assert(t[k] == buf@[pos + k]);
        }
        lemma_decimal_of_digits(t);
        if hit {
            lemma_decimal_digits(acc as nat);
            lemma_decimal_digits(n);
            assert(t =~= dec);
        }
    }
    Ok((acc, i))
}

/// Reads a byte string at `pos`: a length, a colon and that many bytes.
fn parse_bytes(buf: &[u8], pos: usize, Ghost(tb): Ghost<Seq<u8>>) -> (r: Result<(Vec<u8>, usize), DecodeError>)
    requires
        pos <= buf.len(),
    ensures
        holds_at(buf@, pos as int, bytes_text(tb)) ==> (r matches Ok((b, end)) && end == pos
            + bytes_text(tb).len()),
        cut_at(buf@, pos as int, bytes_text(tb)) && tb.len() <= u64::MAX ==> r matches Err(
            DecodeError::Truncated,
        ),
        r matches Ok((b, end)) ==> pos < end <= buf.len()
            && buf@.subrange(pos as int, end as int) == bytes_text(b@),
        pos == buf.len() ==> r matches Err(DecodeError::Truncated),
        pos < buf.len() && !is_digit(buf@[pos as int]) ==> r matches Err(DecodeError::Syntax),
{
    let ghost hit = holds_at(buf@, pos as int, bytes_text(tb));
    let ghost dl = decimal(tb.len());
    proof {
        if hit {
            lemma_decimal_digits(tb.len());
            lemma_holds_part(buf@, pos as int, bytes_text(tb), 0, dl.len() as int);
            assert(bytes_text(tb).subrange(0, dl.len() as int) =~= dl);
            assert(buf@[pos + dl.len()] == bytes_text(tb)[dl.len() as int]);
        }
        if cut_at(buf@, pos as int, bytes_text(tb)) && tb.len() <= u64::MAX {
            lemma_decimal_digits(tb.len());
            assert(bytes_text(tb).subrange(0, dl.len() as int) =~= dl);
            if pos + dl.len() > buf.len() {
                lemma_cut_part(buf@, pos as int, bytes_text(tb), 0, dl.len() as int);
            } else {
                lemma_cut_part(buf@, pos as int, bytes_text(tb), 0, dl.len() as int);
                if pos + dl.len() < buf.len() {
                    lemma_cut_part(buf@, pos as int, bytes_text(tb), dl.len() as int, dl.len() + 1int);
                    assert(bytes_text(tb)[dl.len() as int] == 58);
                    assert(buf@[pos + dl.len()] == buf@.subrange(pos + dl.len(), pos + dl.len() + 1)[0]);
                }
            }
        }
    }
    let (n, mut i) = match parse_natural(buf, pos, Ghost(tb.len())) {
        Ok(p) => p,
        Err(e) => return Err(e),
    };
    if i == buf.len() {
        return Err(DecodeError::Truncated);
    }
    if buf[i] != 58 {
        return Err(DecodeError::Syntax);
    }
    i = i + 1;
    if n > (buf.len() - i) as u64 {
        return Err(DecodeError::Truncated);
    }
    let end: usize = i + n as usize;
    let mut b: Vec<u8> = Vec::new();
    let mut k: usize = i;
    while k < end
        invariant
            i <= k <= end <= buf.len(),
            b@ == buf@.subrange(i as int, k as int),
        decreases end - k,
    {
        b.push(buf[k]);
        k = k + 1;
        assert(b@ =~= buf@.subrange(i as int, k as int));
    }
    assert(buf@.subrange(pos as int, end as int) =~= bytes_text(b@));
    Ok((b, end))
}

/// Reads an integer at `pos`, which holds the `i` that opens it.
fn parse_int(buf: &[u8], pos: usize, Ghost(x): Ghost<i64>) -> (r: Result<(i64, usize), DecodeError>)
    requires
        pos < buf.len(),
        buf@[pos as int] == 105,
    ensures
        holds_at(buf@, pos as int, enc(Value::Int(x))) ==> r == Ok::<(i64, usize), DecodeError>(
            (x, (pos + enc(Value::Int(x)).len()) as usize),
        ),
        cut_at(buf@, pos as int, enc(Value::Int(x))) ==> r matches Err(DecodeError::Truncated),
        r matches Ok((n, end)) ==> pos < end <= buf.len()
            && buf@.subrange(pos as int, end as int) == enc(Value::Int(n)),
{
    let mut i: usize = pos + 1;
    let neg = i < buf.len() && buf[i] == 45;
    if neg {
        i = i + 1;
    }
    let ghost hit = holds_at(buf@, pos as int, enc(Value::Int(x)));
    let ghost mag: nat = if x < 0 {
        (-x) as nat
    } else {
        x as nat
    };
    proof {
        if hit {
            let e = enc(Value::Int(x));
            lemma_decimal_digits(mag);
            let off: int = if x < 0 {
                2
            } else {
                1
            };
            assert(buf@[pos + 1] == e[1]);
            assert(e.subrange(off, off + decimal(mag).len()) =~= decimal(mag));
            lemma_holds_part(buf@, pos as int, e, off, off + decimal(mag).len());
            assert(buf@[pos + off + decimal(mag).len()] == e[off + decimal(mag).len()]);
            assert(i == pos + off);
        }
        if cut_at(buf@, pos as int, enc(Value::Int(x))) {
            let e = enc(Value::Int(x));
            lemma_decimal_digits(mag);
            let off: int = if x < 0 {
                2
            } else {
                1
            };
            if pos + 1 < buf.len() {
                lemma_cut_part(buf@, pos as int, e, 1, 2);
                assert(buf@[pos + 1] == buf@.subrange(pos + 1, pos + 2)[0]);
            }
            if pos + off <= buf.len() {
                assert(e.subrange(off, off + decimal(mag).len()) =~= decimal(mag));
                lemma_cut_part(buf@, pos as int, e, off, off + decimal(mag).len());
            }
        }
    }
    let (m, j) = match parse_natural(buf, i, Ghost(mag)) {
        Ok(p) => p,
        Err(e) => return Err(e),
    };
    if j == buf.len() {
        return Err(DecodeError::Truncated);
    }
    if buf[j] != 101 {
        return Err(DecodeError::Syntax);
    }
    let n: i64;
    if neg {
        if m == 0 || m > 9223372036854775808u64 {
            return Err(DecodeError::Syntax);
        }
        n = (-(m as i128)) as i64;
    } else {
        if m > 9223372036854775807u64 {
            return Err(DecodeError::Syntax);
        }
        n = m as i64;
    }
    let end: usize = j + 1;
    proof {
        let t = buf@.subrange(pos as int, end as int);
        if neg {
            assert(t =~= seq![105u8] + (seq![45u8] + buf@.subrange(i as int, j as int)) + seq![101u8]);
        } else {
            assert(t =~= seq![105u8] + buf@.subrange(i as int, j as int) + seq![101u8]);
        }
    }
    Ok((n, end))
}


/// Reads one value at `pos`. The ghost `t` names a value whose encoding may
/// stand there: if it does, the read succeeds and stops right after it.
#[verifier::rlimit(80)]
fn parse_at(buf: &[u8], pos: usize, Ghost(t): Ghost<Value>) -> (r: Result<(Value, usize), DecodeError>)
    requires
        pos <= buf.len(),
    ensures
        r matches Ok((v, end)) ==> pos < end <= buf.len()
            && buf@.subrange(pos as int, end as int) == enc(v),
        pos == buf.len() ==> r matches Err(DecodeError::Truncated),
        pos < buf.len() && !starts_value(buf@[pos as int]) ==> r matches Err(DecodeError::Syntax),
        holds_at(buf@, pos as int, enc(t)) ==> (r matches Ok((v, end)) && end == pos + enc(t).len()),
        cut_at(buf@, pos as int, enc(t)) ==> r matches Err(DecodeError::Truncated),
    decreases buf.len() - pos,
{
    let ghost hit = holds_at(buf@, pos as int, enc(t));
    let ghost cut = cut_at(buf@, pos as int, enc(t));
    proof {
        lemma_enc_first(t);
        if hit {
            assert(buf@[pos as int] == enc(t)[0]);
        }
        if cut && pos < buf.len() {
            assert(buf@[pos as int] == buf@.subrange(pos as int, buf.len() as int)[0]);
        }
        if t is Bytes {
            assert(t->Bytes_0@.len() == t->Bytes_0.len());
        }
    }
    if pos == buf.len() {
        return Err(DecodeError::Truncated);
    }
    let c = buf[pos];
    if c == 105 {
        let ghost x: i64 = if t is Int {
            t->Int_0
        } else {
            0
        };
        match parse_int(buf, pos, Ghost(x)) {
            Ok((n, end)) => Ok((Value::Int(n), end)),
            Err(e) => Err(e),
        }
    } else if 48 <= c && c <= 57 {
        let ghost tb: Seq<u8> = if t is Bytes {
            t->Bytes_0@
        } else {
            Seq::empty()
        };
        match parse_bytes(buf, pos, Ghost(tb)) {
            Ok((b, end)) => Ok((Value::Bytes(b), end)),
            Err(e) => Err(e),
        }
    } else if c == 108 {
        let ghost tl: Seq<Value> = if t is List {
            t->List_0@
        } else {
            Seq::empty()
        };
        let ghost mut k: int = 0;
        let mut items: Vec<Value> = Vec::new();
        let mut i: usize = pos + 1;
        loop
            invariant
                pos < i <= buf.len(),
                buf@[pos as int] == 108,
                buf@.subrange(pos + 1, i as int) == enc_items(items@),
                hit == holds_at(buf@, pos as int, enc(t)),
                hit ==> t is List && tl == t->List_0@,
                hit ==> 0 <= k <= tl.len() && i == pos + 1 + enc_items(tl.subrange(0, k)).len(),
                cut == cut_at(buf@, pos as int, enc(t)),
                cut ==> t is List && tl == t->List_0@,
                cut ==> 0 <= k <= tl.len() && i == pos + 1 + enc_items(tl.subrange(0, k)).len(),
            ensures
                !cut,
                pos < i < buf.len() && buf@[i as int] == 101,
                buf@.subrange(pos + 1, i as int) == enc_items(items@),
                hit ==> k == tl.len() && i == pos + 1 + enc_items(tl.subrange(0, k)).len(),
            decreases buf.len() - i,
        {
            proof {
                if hit {
                    lemma_list_end(t);
                    lemma_items_prefix(tl, k);
                    if k < tl.len() {
                        lemma_list_item_at(t, k);
                        lemma_enc_first(tl[k]);
                        lemma_holds_part(buf@, pos as int, enc(t), i - pos, i - pos + enc(tl[k]).len());
                        assert(buf@[i as int] == buf@.subrange(i as int, i + enc(tl[k]).len())[0]);
                    } else {
                        assert(buf@[i as int] == enc(t)[i - pos]);
                    }
                }
            }
            proof {
                if cut && i < buf.len() {
                    lemma_list_end(t);
                    lemma_items_prefix(tl, k);
                    if k == tl.len() {
                        assert(false);
                    }
                    lemma_list_item_at(t, k);
                    lemma_enc_first(tl[k]);
                    let e = enc(tl[k]);
                    lemma_cut_part(buf@, pos as int, enc(t), i - pos, i - pos + e.len());
                    if i + e.len() <= buf.len() {
                        assert(buf@[i as int] == buf@.subrange(i as int, i + e.len())[0]);
                    } else {
                        assert(buf@[i as int] == buf@.subrange(i as int, buf.len() as int)[0]);
                        assert(e.subrange(0, buf.len() - i)[0] == e[0]);
                    }
                }
            }
            if i == buf.len() {
                return Err(DecodeError::Truncated);
            }
            if buf[i] == 101 {
                break;
            }
            let ghost sub: Value = if hit || cut {
                tl[k]
            } else {
                t
            };
            proof {
                if cut {
                    lemma_list_item_at(t, k);
                    lemma_cut_part(buf@, pos as int, enc(t), i - pos, i - pos + enc(sub).len());
                }
            }
            let (v, end) = match parse_at(buf, i, Ghost(sub)) {
                Ok(p) => p,
                Err(e) => return Err(e),
            };
            let ghost old_items = items@;
            items.push(v);
            proof {
                assert(items@.drop_last() =~= old_items);
                assert(buf@.subrange(pos + 1, end as int) =~= buf@.subrange(pos + 1, i as int)
                    + buf@.subrange(i as int, end as int));
                if hit || cut {
                    let p = tl.subrange(0, k + 1);
                    assert(p.drop_last() =~= tl.subrange(0, k));
                    k = k + 1;
                }
            }
            i = end;
        }
        proof {
            if hit {
                lemma_list_end(t);
            }
        }
        let end: usize = i + 1;
        let v = Value::List(items);
        assert(buf@.subrange(pos as int, end as int) =~= seq![108u8] + buf@.subrange(
            pos + 1,
            i as int,
        ) + seq![101u8]);
        Ok((v, end))
    } else if c == 100 {
        let ghost te: Seq<(Vec<u8>, Value)> = if t is Dict {
            t->Dict_0@
        } else {
            Seq::empty()
        };
        let ghost mut k: int = 0;
        let mut entries: Vec<(Vec<u8>, Value)> = Vec::new();
        let mut i: usize = pos + 1;
        loop
            invariant
                pos < i <= buf.len(),
                buf@[pos as int] == 100,
                buf@.subrange(pos + 1, i as int) == enc_entries(entries@),
                hit == holds_at(buf@, pos as int, enc(t)),
                hit ==> t is Dict && te == t->Dict_0@,
                hit ==> 0 <= k <= te.len() && i == pos + 1 + enc_entries(te.subrange(0, k)).len(),
                cut == cut_at(buf@, pos as int, enc(t)),
                cut ==> t is Dict && te == t->Dict_0@,
                cut ==> 0 <= k <= te.len() && i == pos + 1 + enc_entries(te.subrange(0, k)).len(),
            ensures
                !cut,
                pos < i < buf.len() && buf@[i as int] == 101,
                buf@.subrange(pos + 1, i as int) == enc_entries(entries@),
                hit ==> k == te.len() && i == pos + 1 + enc_entries(te.subrange(0, k)).len(),
            decreases buf.len() - i,
        {
            proof {
                if hit {
                    lemma_dict_end(t);
                    lemma_entries_prefix(te, k);
                    if k < te.len() {
                        lemma_dict_entry_at(t, k);
                        let e = bytes_text(te[k].0@) + enc(te[k].1);
                        lemma_decimal_digits(te[k].0@.len());
                        lemma_holds_part(buf@, pos as int, enc(t), i - pos, i - pos + e.len());
                        assert(buf@[i as int] == buf@.subrange(i as int, i + e.len())[0]);
                        assert(e[0] == decimal(te[k].0@.len())[0]);
                    } else {
                        assert(buf@[i as int] == enc(t)[i - pos]);
                    }
                }
            }
            proof {
                if cut && i < buf.len() {
                    lemma_dict_end(t);
                    lemma_entries_prefix(te, k);
                    if k == te.len() {
                        assert(false);
                    }
                    lemma_dict_entry_at(t, k);
                    let e = bytes_text(te[k].0@) + enc(te[k].1);
                    lemma_decimal_digits(te[k].0@.len());
                    assert(e[0] == decimal(te[k].0@.len())[0]);
                    lemma_cut_part(buf@, pos as int, enc(t), i - pos, i - pos + e.len());
                    if i + e.len() <= buf.len() {
                        assert(buf@[i as int] == buf@.subrange(i as int, i + e.len())[0]);
                    } else {
                        assert(buf@[i as int] == buf@.subrange(i as int, buf.len() as int)[0]);
                        assert(e.subrange(0, buf.len() - i)[0] == e[0]);
                    }
                }
            }
            if i == buf.len() {
                return Err(DecodeError::Truncated);
            }
            if buf[i] == 101 {
                break;
            }
            let ghost kb: Seq<u8> = if hit || cut {
                te[k].0@
            } else {
                Seq::empty()
            };
            let ghost sub: Value = if hit || cut {
                te[k].1
            } else {
                t
            };
            proof {
                if hit {
                    let e = bytes_text(kb) + enc(sub);
                    lemma_holds_part(buf@, pos as int, enc(t), i - pos, i - pos + e.len());
                    assert(e.subrange(0, bytes_text(kb).len() as int) =~= bytes_text(kb));
                    lemma_holds_part(buf@, i as int, e, 0, bytes_text(kb).len() as int);
                }
            }
            proof {
                if cut {
                    let e = bytes_text(kb) + enc(sub);
                    lemma_dict_entry_at(t, k);
                    assert(kb.len() == te[k].0.len());
                    lemma_cut_part(buf@, pos as int, enc(t), i - pos, i - pos + e.len());
                    assert(e.subrange(0, bytes_text(kb).len() as int) =~= bytes_text(kb));
                    if i + e.len() <= buf.len() {
                        lemma_holds_part(buf@, i as int, e, 0, bytes_text(kb).len() as int);
                    } else if i + bytes_text(kb).len() <= buf.len() {
                        lemma_cut_part(buf@, i as int, e, 0, bytes_text(kb).len() as int);
                    } else {
                        lemma_cut_part(buf@, i as int, e, 0, bytes_text(kb).len() as int);
                    }
                }
            }
            let (key, mid) = match parse_bytes(buf, i, Ghost(kb)) {
                Ok(p) => p,
                Err(e) => return Err(e),
            };
            proof {
                if hit {
                    let e = bytes_text(kb) + enc(sub);
                    assert(e.subrange(bytes_text(kb).len() as int, e.len() as int) =~= enc(sub));
                    lemma_holds_part(buf@, i as int, e, bytes_text(kb).len() as int, e.len() as int);
                }
            }
            proof {
                if cut {
                    let e = bytes_text(kb) + enc(sub);
                    lemma_dict_entry_at(t, k);
                    lemma_cut_part(buf@, pos as int, enc(t), i - pos, i - pos + e.len());
                    assert(e.subrange(bytes_text(kb).len() as int, e.len() as int) =~= enc(sub));
                    if i + e.len() <= buf.len() {
                        lemma_holds_part(buf@, i as int, e, bytes_text(kb).len() as int, e.len() as int);
                    } else {
                        lemma_cut_part(buf@, i as int, e, bytes_text(kb).len() as int, e.len() as int);
                    }
                }
            }
            let (v, end) = match parse_at(buf, mid, Ghost(sub)) {
                Ok(p) => p,
                Err(e) => return Err(e),
            };
            let ghost old_entries = entries@;
            entries.push((key, v));
            proof {
                assert(entries@.drop_last() =~= old_entries);
                assert(buf@.subrange(pos + 1, end as int) =~= buf@.subrange(pos + 1, i as int)
                    + buf@.subrange(i as int, mid as int) + buf@.subrange(mid as int, end as int));
                if hit || cut {
                    let p = te.subrange(0, k + 1);
                    assert(p.drop_last() =~= te.subrange(0, k));
                    k = k + 1;
                }
            }
            i = end;
        }
        proof {
            if hit {
                lemma_dict_end(t);
            }
        }
        let end: usize = i + 1;
        let v = Value::Dict(entries);
        assert(buf@.subrange(pos as int, end as int) =~= seq![100u8] + buf@.subrange(
            pos + 1,
            i as int,
        ) + seq![101u8]);
        Ok((v, end))
    } else {
        Err(DecodeError::Syntax)
    }
}

/// Reads one value at `pos`; on success also gives the position just past
/// it. Whenever the encoding of some value stands at `pos`, the read
/// succeeds.
pub fn parse_value(buf: &[u8], pos: usize) -> (r: Result<(Value, usize), DecodeError>)
    requires
        pos <= buf.len(),
    ensures
        r matches Ok((v, end)) ==> pos < end <= buf.len()
            && buf@.subrange(pos as int, end as int) == enc(v),
        pos == buf.len() ==> r matches Err(DecodeError::Truncated),
        pos < buf.len() && !starts_value(buf@[pos as int]) ==> r matches Err(DecodeError::Syntax),
        (exists|t: Value| #[trigger] holds_at(buf@, pos as int, enc(t))) ==> r is Ok,
{
    let ghost t = choose|t: Value| #[trigger] holds_at(buf@, pos as int, enc(t));
    parse_at(buf, pos, Ghost(t))
}

/// Decodes a whole buffer holding exactly one value.
pub fn decode(buf: &[u8]) -> (r: Result<Value, DecodeError>)
    ensures
        r matches Ok(v) ==> enc(v) == buf@,
        r is Ok <==> exists|t: Value| #[trigger] enc(t) == buf@,
        !(exists|t: Value| #[trigger] enc(t) == buf@) && (exists|t: Value| #[trigger] cut_at(
            buf@,
            0,
            enc(t),
        )) ==> r == Err::<Value, DecodeError>(DecodeError::Truncated),
        buf.len() == 0 ==> r matches Err(DecodeError::Truncated),
        buf.len() > 0 && !starts_value(buf@[0]) ==> r matches Err(DecodeError::Syntax),
{
    proof {
        if exists|t: Value| #[trigger] enc(t) == buf@ {
            let t = choose|t: Value| #[trigger] enc(t) == buf@;
            assert(buf@.subrange(0, buf@.len() as int) =~= buf@);
            assert(holds_at(buf@, 0, enc(t)));
        }
    }
    let ghost t = if exists|t: Value| #[trigger] enc(t) == buf@ {
        choose|t: Value| #[trigger] enc(t) == buf@
    } else {
        choose|t: Value| #[trigger] cut_at(buf@, 0, enc(t))
    };
    match parse_at(buf, 0, Ghost(t)) {
        Ok((v, end)) => {
            if end != buf.len() {
                return Err(DecodeError::Syntax);
            }
            assert(buf@.subrange(0, end as int) =~= buf@);
            Ok(v)
        },
        Err(e) => Err(e),
    }
}

} // verus!
