use vstd::prelude::*;
use crate::endian::{copy_range, push_all};

verus! {

/// A decoded bencode value. Dictionary entries keep the order in which they were read.
#[derive(Debug)]
pub enum Value {
    Int(i64),
    Bytes(Vec<u8>),
    List(Vec<Value>),
    Dict(Vec<(Vec<u8>, Value)>),
}

/// Mathematical value of a bencode [`Value`].
pub enum BValue {
    Int(int),
    Bytes(Seq<u8>),
    List(Seq<BValue>),
    Dict(Seq<(Seq<u8>, BValue)>),
}

pub open spec fn view_value(v: Value) -> BValue
    decreases v,
{
    match v {
        Value::Int(n) => BValue::Int(n as int),
        Value::Bytes(b) => BValue::Bytes(b@),
        Value::List(l) => BValue::List(view_list(l@)),
        Value::Dict(d) => BValue::Dict(view_dict(d@)),
    }
}

pub open spec fn view_list(s: Seq<Value>) -> Seq<BValue>
    decreases s,
{
    if s.len() == 0 {
        seq![]
    } else {
        view_list(s.subrange(0, s.len() - 1)).push(view_value(s[s.len() - 1]))
    }
}

pub open spec fn view_dict(s: Seq<(Vec<u8>, Value)>) -> Seq<(Seq<u8>, BValue)>
    decreases s,
{
    if s.len() == 0 {
        seq![]
    } else {
        view_dict(s.subrange(0, s.len() - 1)).push(
            (s[s.len() - 1].0@, view_value(s[s.len() - 1].1)),
        )
    }
}

impl View for Value {
    type V = BValue;

    open spec fn view(&self) -> BValue {
        view_value(*self)
    }
}

/// ASCII decimal digits of a natural number, with no leading zero.
pub open spec fn nat_dec(n: nat) -> Seq<u8>
    decreases n,
{
    if n < 10 {
        seq![(48 + n) as u8]
    } else {
        nat_dec(n / 10).push((48 + n % 10) as u8)
    }
}

/// ASCII decimal form of an integer: a minus sign before negative ones.
pub open spec fn int_dec(n: int) -> Seq<u8> {
    if n < 0 {
        seq![45u8] + nat_dec((-n) as nat)
    } else {
        nat_dec(n as nat)
    }
}

/// The bencoding of a value: `i<n>e`, `<len>:<bytes>`, `l<items>e`, `d<key><value>...e`.
pub open spec fn enc(b: BValue) -> Seq<u8>
    decreases b,
{
    match b {
        BValue::Int(n) => seq![105u8] + int_dec(n) + seq![101u8],
        BValue::Bytes(s) => enc_bytes(s),
        BValue::List(items) => seq![108u8] + enc_list(items) + seq![101u8],
        BValue::Dict(entries) => seq![100u8] + enc_dict(entries) + seq![101u8],
    }
}

pub open spec fn enc_bytes(s: Seq<u8>) -> Seq<u8> {
    nat_dec(s.len()) + seq![58u8] + s
}

pub open spec fn enc_list(items: Seq<BValue>) -> Seq<u8>
    decreases items,
{
    if items.len() == 0 {
        seq![]
    } else {
        enc_list(items.subrange(0, items.len() - 1)) + enc(items[items.len() - 1])
    }
}

pub open spec fn enc_dict(entries: Seq<(Seq<u8>, BValue)>) -> Seq<u8>
    decreases entries,
{
    if entries.len() == 0 {
        seq![]
    } else {
        enc_dict(entries.subrange(0, entries.len() - 1)) + enc_bytes(entries[entries.len() - 1].0)
            + enc(entries[entries.len() - 1].1)
    }
}

pub open spec fn is_digit(c: u8) -> bool {
    48 <= c <= 57
}

/// Numeric value of a run of ASCII digits.
pub open spec fn digits_value(d: Seq<u8>) -> nat
    decreases d.len(),
{
    if d.len() == 0 {
        0
    } else {
        digits_value(d.subrange(0, d.len() - 1)) * 10 + (d[d.len() - 1] - 48) as nat
    }
}

/// Digits with no leading zero, unless the digit is alone.
pub open spec fn canonical_digits(d: Seq<u8>) -> bool {
    &&& d.len() > 0
    &&& forall|i: int| 0 <= i < d.len() ==> is_digit(#[trigger] d[i])
    &&& (d[0] == 48 ==> d.len() == 1)
}

proof fn lemma_digits_positive(d: Seq<u8>)
    requires
        canonical_digits(d),
        d[0] != 48,
    ensures
        digits_value(d) >= 1,
    decreases d.len(),
{
    if d.len() > 1 {
        let p = d.subrange(0, d.len() - 1);
        assert(p[0] == d[0]);
        assert forall|i: int| 0 <= i < p.len() implies is_digit(#[trigger] p[i]) by {
            assert(p[i] == d[i]);
        }
        lemma_digits_positive(p);
    }
}

/// Canonical digits are the decimal form of their value.
proof fn lemma_digits_dec(d: Seq<u8>)
    requires
        canonical_digits(d),
    ensures
        nat_dec(digits_value(d)) == d,
    decreases d.len(),
{
    let p = d.subrange(0, d.len() - 1);
    let c = d[d.len() - 1];
    assert(is_digit(c));
    if d.len() == 1 {
        assert(digits_value(p) == 0);
        assert(nat_dec(digits_value(d)) =~= d);
    } else {
        assert(p[0] == d[0]);
        assert forall|i: int| 0 <= i < p.len() implies is_digit(#[trigger] p[i]) by {
            assert(p[i] == d[i]);
        }
        assert(d[0] != 48);
        lemma_digits_positive(p);
        lemma_digits_dec(p);
        let v = digits_value(d);
        let q = digits_value(p);
        assert(v == q * 10 + (c - 48) as nat);
        assert(v / 10 == q && v % 10 == (c - 48) as nat) by (nonlinear_arith)
            requires
                v == q * 10 + (c - 48) as nat,
                0 <= c - 48 < 10,
        ;
        assert(v >= 10);
        assert(nat_dec(v) =~= d);
    }
}

/// Integers fit in 64 bits, throughout the value.
pub open spec fn wf_value(b: BValue) -> bool
    decreases b,
{
    match b {
        BValue::Int(n) => i64::MIN <= n <= i64::MAX,
        BValue::Bytes(_) => true,
        BValue::List(items) => wf_items(items),
        BValue::Dict(es) => wf_entries(es),
    }
}

pub open spec fn wf_items(items: Seq<BValue>) -> bool
    decreases items,
{
    if items.len() == 0 {
        true
    } else {
        wf_items(items.subrange(0, items.len() - 1)) && wf_value(items[items.len() - 1])
    }
}

pub open spec fn wf_entries(es: Seq<(Seq<u8>, BValue)>) -> bool
    decreases es,
{
    if es.len() == 0 {
        true
    } else {
        wf_entries(es.subrange(0, es.len() - 1)) && wf_value(es[es.len() - 1].1)
    }
}

/// The decimal form of a number is canonical and reads back as the number.
proof fn lemma_nat_dec(n: nat)
    ensures
        canonical_digits(nat_dec(n)),
        digits_value(nat_dec(n)) == n,
        n > 0 ==> nat_dec(n)[0] != 48,
    decreases n,
{
    let full = nat_dec(n);
    if n >= 10 {
        lemma_nat_dec(n / 10);
        let d = nat_dec(n / 10);
        assert(full == d.push((48 + n % 10) as u8));
        assert(full.subrange(0, full.len() - 1) =~= d);
        assert forall|i: int| 0 <= i < full.len() implies is_digit(#[trigger] full[i]) by {
            if i < d.len() {
                assert(full[i] == d[i]);
            }
        }
        assert(full[0] == d[0]);
        let c = full[full.len() - 1];
        assert(c == (48 + n % 10) as u8);
        assert((c - 48) as nat == n % 10);
        assert(digits_value(full) == digits_value(d) * 10 + (c - 48) as nat);
        assert((n / 10) * 10 + n % 10 == n) by (nonlinear_arith);
    } else {
        assert(full.subrange(0, 0) =~= Seq::<u8>::empty());
        assert(digits_value(full.subrange(0, 0)) == 0);
        assert(digits_value(full) == digits_value(full.subrange(0, 0)) * 10 + (full[0] - 48) as nat);
    }
}

proof fn lemma_int_dec_bytes(n: int)
    ensures
        int_dec(n).len() > 0,
        forall|i: int| 0 <= i < int_dec(n).len() ==> #[trigger] int_dec(n)[i] != 101u8 && int_dec(
            n,
        )[i] != 58u8,
        n < 0 ==> int_dec(n)[0] == 45,
        n >= 0 ==> is_digit(int_dec(n)[0]),
{
    if n < 0 {
        lemma_nat_dec((-n) as nat);
        let d = nat_dec((-n) as nat);
        assert forall|i: int| 0 <= i < int_dec(n).len() implies #[trigger] int_dec(n)[i] != 101u8
            && int_dec(n)[i] != 58u8 by {
            if i > 0 {
                assert(int_dec(n)[i] == d[i - 1]);
                assert(is_digit(d[i - 1]));
            }
        }
    } else {
        lemma_nat_dec(n as nat);
        let d = nat_dec(n as nat);
        assert forall|i: int| 0 <= i < int_dec(n).len() implies #[trigger] int_dec(n)[i] != 101u8
            && int_dec(n)[i] != 58u8 by {
            assert(is_digit(d[i]));
        }
    }
}

proof fn lemma_int_dec_injective(n1: int, n2: int)
    requires
        int_dec(n1) == int_dec(n2),
    ensures
        n1 == n2,
{
    lemma_int_dec_bytes(n1);
    lemma_int_dec_bytes(n2);
    if n1 < 0 {
        assert(n2 < 0);
        assert(nat_dec((-n1) as nat) =~= int_dec(n1).subrange(1, int_dec(n1).len() as int));
        assert(nat_dec((-n2) as nat) =~= int_dec(n2).subrange(1, int_dec(n2).len() as int));
        lemma_nat_dec((-n1) as nat);
        lemma_nat_dec((-n2) as nat);
    } else {
        assert(n2 >= 0);
        lemma_nat_dec(n1 as nat);
        lemma_nat_dec(n2 as nat);
    }
}

/// Two sequences that each end at the first `c` of a common stream are equal.
proof fn lemma_sep_prefix(x1: Seq<u8>, x2: Seq<u8>, r1: Seq<u8>, r2: Seq<u8>, c: u8)
    requires
        forall|i: int| 0 <= i < x1.len() ==> #[trigger] x1[i] != c,
        forall|i: int| 0 <= i < x2.len() ==> #[trigger] x2[i] != c,
        x1 + seq![c] + r1 == x2 + seq![c] + r2,
    ensures
        x1 == x2,
        r1 == r2,
{
    let s = x1 + seq![c] + r1;
    if x1.len() < x2.len() {
        assert(s[x1.len() as int] == c);
        assert((x2 + seq![c] + r2)[x1.len() as int] == x2[x1.len() as int]);
    } else if x2.len() < x1.len() {
        assert((x2 + seq![c] + r2)[x2.len() as int] == c);
        assert(s[x2.len() as int] == x1[x2.len() as int]);
    }
    assert(x1 =~= s.subrange(0, x1.len() as int));
    assert(x2 =~= (x2 + seq![c] + r2).subrange(0, x2.len() as int));
    assert(r1 =~= s.subrange(x1.len() as int + 1, s.len() as int));
    assert(r2 =~= (x2 + seq![c] + r2).subrange(x2.len() as int + 1, s.len() as int));
}

proof fn lemma_enc_first(b: BValue)
    ensures
        enc(b).len() > 0,
        enc(b)[0] != 101,
        b is Int <==> enc(b)[0] == 105,
        b is Bytes <==> is_digit(enc(b)[0]),
        b is List <==> enc(b)[0] == 108,
        b is Dict <==> enc(b)[0] == 100,
{
    if let BValue::Bytes(s) = b {
        lemma_nat_dec(s.len());
    }
}

proof fn lemma_enc_list_concat(a: Seq<BValue>, b: Seq<BValue>)
    ensures
        enc_list(a + b) == enc_list(a) + enc_list(b),
    decreases b.len(),
{
    if b.len() == 0 {
        assert(a + b =~= a);
        assert(enc_list(a) + enc_list(b) =~= enc_list(a));
    } else {
        let b2 = b.subrange(0, b.len() - 1);
        lemma_enc_list_concat(a, b2);
        assert((a + b).subrange(0, (a + b).len() - 1) =~= a + b2);
        assert((a + b)[(a + b).len() - 1] == b[b.len() - 1]);
        assert(enc_list(a + b) =~= enc_list(a) + enc_list(b));
    }
}

proof fn lemma_enc_dict_concat(a: Seq<(Seq<u8>, BValue)>, b: Seq<(Seq<u8>, BValue)>)
    ensures
        enc_dict(a + b) == enc_dict(a) + enc_dict(b),
    decreases b.len(),
{
    if b.len() == 0 {
        assert(a + b =~= a);
        assert(enc_dict(a) + enc_dict(b) =~= enc_dict(a));
    } else {
        let b2 = b.subrange(0, b.len() - 1);
        lemma_enc_dict_concat(a, b2);
        assert((a + b).subrange(0, (a + b).len() - 1) =~= a + b2);
        assert((a + b)[(a + b).len() - 1] == b[b.len() - 1]);
        assert(enc_dict(a + b) =~= enc_dict(a) + enc_dict(b));
    }
}

proof fn lemma_enc_list_front(xs: Seq<BValue>)
    requires
        xs.len() > 0,
    ensures
        enc_list(xs) == enc(xs[0]) + enc_list(xs.subrange(1, xs.len() as int)),
{
    let head = seq![xs[0]];
    assert(xs =~= head + xs.subrange(1, xs.len() as int));
    lemma_enc_list_concat(head, xs.subrange(1, xs.len() as int));
    assert(head.subrange(0, 0) =~= Seq::<BValue>::empty());
    assert(enc_list(head.subrange(0, 0)) == Seq::<u8>::empty());
    assert(enc_list(head) == enc_list(head.subrange(0, 0)) + enc(head[0]));
    assert(enc_list(head) =~= enc(xs[0]));
}

pub proof fn lemma_enc_dict_front(es: Seq<(Seq<u8>, BValue)>)
    requires
        es.len() > 0,
    ensures
        enc_dict(es) == enc_bytes(es[0].0) + enc(es[0].1) + enc_dict(es.subrange(1, es.len() as int)),
{
    let head = seq![es[0]];
    assert(es =~= head + es.subrange(1, es.len() as int));
    lemma_enc_dict_concat(head, es.subrange(1, es.len() as int));
    assert(head.subrange(0, 0) =~= Seq::<(Seq<u8>, BValue)>::empty());
    assert(enc_dict(head.subrange(0, 0)) == Seq::<u8>::empty());
    assert(enc_dict(head) == enc_dict(head.subrange(0, 0)) + enc_bytes(head[0].0) + enc(head[0].1));
    assert(enc_dict(head) =~= enc_bytes(es[0].0) + enc(es[0].1));
}

proof fn lemma_bytes_prefix_free(a: Seq<u8>, b: Seq<u8>, r1: Seq<u8>, r2: Seq<u8>)
    requires
        enc_bytes(a) + r1 == enc_bytes(b) + r2,
    ensures
        a == b,
        r1 == r2,
{
    lemma_nat_dec(a.len());
    lemma_nat_dec(b.len());
    let da = nat_dec(a.len());
    let db = nat_dec(b.len());
    assert forall|i: int| 0 <= i < da.len() implies #[trigger] da[i] != 58u8 by {
        assert(is_digit(da[i]));
    }
    assert forall|i: int| 0 <= i < db.len() implies #[trigger] db[i] != 58u8 by {
        assert(is_digit(db[i]));
    }
    assert(enc_bytes(a) + r1 =~= da + seq![58u8] + (a + r1));
    assert(enc_bytes(b) + r2 =~= db + seq![58u8] + (b + r2));
    lemma_sep_prefix(da, db, a + r1, b + r2, 58u8);
    assert(a.len() == b.len());
    assert(a =~= (a + r1).subrange(0, a.len() as int));
    assert(b =~= (b + r2).subrange(0, b.len() as int));
    assert(r1 =~= (a + r1).subrange(a.len() as int, (a + r1).len() as int));
    assert(r2 =~= (b + r2).subrange(b.len() as int, (b + r2).len() as int));
}

/// No encoding is a proper prefix of another: a stream that opens with the encoding of `b1` and
/// with that of `b2` has `b1 == b2`, and the same bytes after it.
pub proof fn lemma_enc_prefix_free(b1: BValue, b2: BValue, r1: Seq<u8>, r2: Seq<u8>)
    requires
        enc(b1) + r1 == enc(b2) + r2,
    ensures
        b1 == b2,
        r1 == r2,
    decreases b1,
{
    lemma_enc_first(b1);
    lemma_enc_first(b2);
    let s = enc(b1) + r1;
    assert(s[0] == enc(b1)[0]);
    assert((enc(b2) + r2)[0] == enc(b2)[0]);
    match b1 {
        BValue::Int(n1) => {
            let n2 = b2->Int_0;
            lemma_int_dec_bytes(n1);
            lemma_int_dec_bytes(n2);
            let t1 = int_dec(n1);
            let t2 = int_dec(n2);
            assert(s.subrange(1, s.len() as int) =~= t1 + seq![101u8] + r1);
            assert((enc(b2) + r2).subrange(1, s.len() as int) =~= t2 + seq![101u8] + r2);
            assert forall|i: int| 0 <= i < t1.len() implies #[trigger] t1[i] != 101u8 by {}
            assert forall|i: int| 0 <= i < t2.len() implies #[trigger] t2[i] != 101u8 by {}
            lemma_sep_prefix(t1, t2, r1, r2, 101u8);
            lemma_int_dec_injective(n1, n2);
        },
        BValue::Bytes(a) => {
            lemma_bytes_prefix_free(a, b2->Bytes_0, r1, r2);
        },
        BValue::List(xs) => {
            let ys = b2->List_0;
            assert(s.subrange(1, s.len() as int) =~= enc_list(xs) + seq![101u8] + r1);
            assert((enc(b2) + r2).subrange(1, s.len() as int) =~= enc_list(ys) + seq![101u8] + r2);
            lemma_list_prefix_free(xs, ys, r1, r2);
        },
        BValue::Dict(es) => {
            let fs = b2->Dict_0;
            assert(s.subrange(1, s.len() as int) =~= enc_dict(es) + seq![101u8] + r1);
            assert((enc(b2) + r2).subrange(1, s.len() as int) =~= enc_dict(fs) + seq![101u8] + r2);
            lemma_dict_prefix_free(es, fs, r1, r2);
        },
    }
}

proof fn lemma_list_prefix_free(xs: Seq<BValue>, ys: Seq<BValue>, r1: Seq<u8>, r2: Seq<u8>)
    requires
        enc_list(xs) + seq![101u8] + r1 == enc_list(ys) + seq![101u8] + r2,
    ensures
        xs == ys,
        r1 == r2,
    decreases xs,
{
    let s = enc_list(xs) + seq![101u8] + r1;
    if xs.len() == 0 && ys.len() == 0 {
        assert(r1 =~= s.subrange(1, s.len() as int));
        assert(r2 =~= (enc_list(ys) + seq![101u8] + r2).subrange(1, s.len() as int));
        assert(xs =~= ys);
    } else if xs.len() == 0 {
        lemma_enc_list_front(ys);
        lemma_enc_first(ys[0]);
        assert(s[0] == 101u8);
        assert((enc_list(ys) + seq![101u8] + r2)[0] == enc(ys[0])[0]);
    } else if ys.len() == 0 {
        lemma_enc_list_front(xs);
        lemma_enc_first(xs[0]);
        assert(s[0] == enc(xs[0])[0]);
        assert((enc_list(ys) + seq![101u8] + r2)[0] == 101u8);
    } else {
        lemma_enc_list_front(xs);
        lemma_enc_list_front(ys);
        let xt = xs.subrange(1, xs.len() as int);
        let yt = ys.subrange(1, ys.len() as int);
        assert(s =~= enc(xs[0]) + (enc_list(xt) + seq![101u8] + r1));
        assert(enc_list(ys) + seq![101u8] + r2 =~= enc(ys[0]) + (enc_list(yt) + seq![101u8] + r2));
        lemma_enc_prefix_free(xs[0], ys[0], enc_list(xt) + seq![101u8] + r1, enc_list(yt) + seq![
            101u8,
        ] + r2);
        lemma_list_prefix_free(xt, yt, r1, r2);
        assert(xs =~= seq![xs[0]] + xt);
        assert(ys =~= seq![ys[0]] + yt);
    }
}

proof fn lemma_dict_prefix_free(
    es: Seq<(Seq<u8>, BValue)>,
    fs: Seq<(Seq<u8>, BValue)>,
    r1: Seq<u8>,
    r2: Seq<u8>,
)
    requires
        enc_dict(es) + seq![101u8] + r1 == enc_dict(fs) + seq![101u8] + r2,
    ensures
        es == fs,
        r1 == r2,
    decreases es,
{
    let s = enc_dict(es) + seq![101u8] + r1;
    if es.len() == 0 && fs.len() == 0 {
        assert(r1 =~= s.subrange(1, s.len() as int));
        assert(r2 =~= (enc_dict(fs) + seq![101u8] + r2).subrange(1, s.len() as int));
        assert(es =~= fs);
    } else if es.len() == 0 {
        lemma_enc_dict_front(fs);
        lemma_enc_first(BValue::Bytes(fs[0].0));
        assert(s[0] == 101u8);
        assert((enc_dict(fs) + seq![101u8] + r2)[0] == enc_bytes(fs[0].0)[0]);
    } else if fs.len() == 0 {
        lemma_enc_dict_front(es);
        lemma_enc_first(BValue::Bytes(es[0].0));
        assert(s[0] == enc_bytes(es[0].0)[0]);
        assert((enc_dict(fs) + seq![101u8] + r2)[0] == 101u8);
    } else {
        lemma_enc_dict_front(es);
        lemma_enc_dict_front(fs);
        let et = es.subrange(1, es.len() as int);
        let ft = fs.subrange(1, fs.len() as int);
        let rest1 = enc_dict(et) + seq![101u8] + r1;
        let rest2 = enc_dict(ft) + seq![101u8] + r2;
        assert(s =~= enc_bytes(es[0].0) + (enc(es[0].1) + rest1));
        assert(enc_dict(fs) + seq![101u8] + r2 =~= enc_bytes(fs[0].0) + (enc(fs[0].1) + rest2));
        lemma_bytes_prefix_free(es[0].0, fs[0].0, enc(es[0].1) + rest1, enc(fs[0].1) + rest2);
        lemma_enc_prefix_free(es[0].1, fs[0].1, rest1, rest2);
        lemma_dict_prefix_free(et, ft, r1, r2);
        assert(es =~= seq![es[0]] + et);
        assert(fs =~= seq![fs[0]] + ft);
    }
}

/// Every value the library can hold is well-formed, so `decode(&encode(v))` gives back `v`:
/// `encode` returns `enc(v@)`, and `decode` returns the well-formed value with that encoding.
pub proof fn lemma_value_wf(v: Value)
    ensures
        wf_value(v@),
    decreases v,
{
    match v {
        Value::List(l) => {
            assert(decreases_to!(v => l));
            lemma_items_wf(l@);
        },
        Value::Dict(d) => {
            assert(decreases_to!(v => d));
            lemma_entries_wf(d@);
        },
        _ => {},
    }
}

/// Decoding undoes encoding: `encode(v)` returns `enc(v@)`, and the one well-formed value with that
/// encoding is `v@` itself, which `decode` therefore returns.
pub proof fn lemma_decode_encode(v: Value)
    ensures
        wf_value(v@),
        forall|b: BValue| wf_value(b) && #[trigger] enc(b) == enc(v@) ==> b == v@,
{
    lemma_value_wf(v);
    assert forall|b: BValue| wf_value(b) && #[trigger] enc(b) == enc(v@) implies b == v@ by {
        assert(enc(b) + Seq::<u8>::empty() =~= enc(v@) + Seq::<u8>::empty());
        lemma_enc_prefix_free(b, v@, Seq::<u8>::empty(), Seq::<u8>::empty());
    }
}

proof fn lemma_items_wf(l: Seq<Value>)
    ensures
        wf_items(view_list(l)),
    decreases l,
{
    if l.len() > 0 {
        let p = l.subrange(0, l.len() - 1);
        lemma_items_wf(p);
        lemma_value_wf(l[l.len() - 1]);
        let w = view_list(l);
        assert(w.subrange(0, w.len() - 1) =~= view_list(p));
    }
}

proof fn lemma_entries_wf(l: Seq<(Vec<u8>, Value)>)
    ensures
        wf_entries(view_dict(l)),
    decreases l,
{
    if l.len() > 0 {
        let p = l.subrange(0, l.len() - 1);
        lemma_entries_wf(p);
        assert(decreases_to!(l => l[l.len() - 1]));
        lemma_value_wf(l[l.len() - 1].1);
        let w = view_dict(l);
        assert(w.subrange(0, w.len() - 1) =~= view_dict(p));
    }
}

/// Why bencoded input was refused.
#[derive(Clone, Copy, Debug, PartialEq, Eq, Structural)]
pub enum BencodeError {
    /// The byte at `offset` cannot stand where it is.
    Malformed { offset: usize },
    /// The input ended inside a value.
    UnexpectedEnd,
    /// A complete value ended at `offset`, before the end of the input.
    TrailingGarbage { offset: usize },
}

/// `t` stands in `s` at `pos`.
pub open spec fn at(s: Seq<u8>, pos: int, t: Seq<u8>) -> bool {
    0 <= pos && pos + t.len() <= s.len() && s.subrange(pos, pos + t.len()) == t
}

proof fn lemma_at_split(s: Seq<u8>, pos: int, x: Seq<u8>, y: Seq<u8>)
    requires
        at(s, pos, x + y),
    ensures
        at(s, pos, x),
        at(s, pos + x.len(), y),
{
    let w = s.subrange(pos, pos + x.len() + y.len());
    assert(w == x + y);
    assert(s.subrange(pos, pos + x.len()) =~= w.subrange(0, x.len() as int));
    assert(w.subrange(0, x.len() as int) =~= x);
    assert(s.subrange(pos + x.len(), pos + x.len() + y.len()) =~= w.subrange(
        x.len() as int,
        w.len() as int,
    ));
    assert(w.subrange(x.len() as int, w.len() as int) =~= y);
}

proof fn lemma_at_sub(s: Seq<u8>, pos: int, t: Seq<u8>, i: int, j: int)
    requires
        at(s, pos, t),
        0 <= i <= j <= t.len(),
    ensures
        at(s, pos + i, t.subrange(i, j)),
        i < j ==> s[pos + i] == t[i],
{
    assert(s.subrange(pos + i, pos + j) =~= t.subrange(i, j));
    if i < j {
        assert(s[pos + i] == s.subrange(pos, pos + t.len())[i]);
    }
}

proof fn lemma_wf_list(items: Seq<BValue>, i: int)
    requires
        wf_value(BValue::List(items)),
        0 <= i < items.len(),
    ensures
        wf_value(items[i]),
    decreases items.len(),
{
    let p = items.subrange(0, items.len() - 1);
    if i < items.len() - 1 {
        assert(wf_items(p));
        lemma_wf_list(p, i);
        assert(p[i] == items[i]);
    }
}

proof fn lemma_wf_dict(es: Seq<(Seq<u8>, BValue)>, i: int)
    requires
        wf_value(BValue::Dict(es)),
        0 <= i < es.len(),
    ensures
        wf_value(es[i].1),
    decreases es.len(),
{
    let p = es.subrange(0, es.len() - 1);
    if i < es.len() - 1 {
        assert(wf_entries(p));
        lemma_wf_dict(p, i);
        assert(p[i] == es[i]);
    }
}

proof fn lemma_prefix_value_le(d: Seq<u8>, k: int)
    requires
        0 <= k <= d.len(),
        forall|i: int| 0 <= i < d.len() ==> is_digit(#[trigger] d[i]),
    ensures
        digits_value(d.subrange(0, k)) <= digits_value(d),
    decreases d.len(),
{
    if k < d.len() {
        let p = d.subrange(0, d.len() - 1);
        assert forall|i: int| 0 <= i < p.len() implies is_digit(#[trigger] p[i]) by {
            assert(p[i] == d[i]);
        }
        lemma_prefix_value_le(p, k);
        assert(p.subrange(0, k) =~= d.subrange(0, k));
    } else {
        assert(d.subrange(0, k) =~= d);
    }
}

/// Reads canonical digits at `pos` up to the first non-digit, as a number no larger than `limit`.
/// When `target` is the number whose digits stand there, that is the number read.
fn parse_digits(s: &[u8], pos: usize, limit: u64, target: Ghost<Option<nat>>) -> (r: Result<
    (u64, usize),
    BencodeError,
>)
    requires
        pos <= s@.len(),
        target@ matches Some(v) ==> v <= limit && at(s@, pos as int, nat_dec(v)) && (pos
            + nat_dec(v).len() == s@.len() || !is_digit(s@[pos + nat_dec(v).len()])),
    ensures
        r matches Ok((v, end)) ==> {
            &&& pos < end <= s@.len()
            &&& v <= limit
            &&& canonical_digits(s@.subrange(pos as int, end as int))
            &&& digits_value(s@.subrange(pos as int, end as int)) == v
        },
        target@ matches Some(v) ==> r == Ok::<(u64, usize), BencodeError>(
            (v as u64, (pos + nat_dec(v).len()) as usize),
        ),
{
    let ghost d = nat_dec(target@.unwrap_or(0));
    proof {
        lemma_nat_dec(target@.unwrap_or(0));
    }
    let mut i: usize = pos;
    let mut acc: u64 = 0;
    while i < s.len() && s[i] >= 48 && s[i] <= 57
        invariant
            pos <= i <= s@.len(),
            acc <= limit,
            forall|j: int| pos <= j < i ==> is_digit(#[trigger] s@[j]),
            digits_value(s@.subrange(pos as int, i as int)) == acc,
            i > pos + 1 ==> s@[pos as int] != 48,
            d == nat_dec(target@.unwrap_or(0)),
            canonical_digits(d),
            digits_value(d) == target@.unwrap_or(0),
            target@ matches Some(v) ==> {
                &&& v <= limit
                &&& at(s@, pos as int, d)
                &&& pos + d.len() == s@.len() || !is_digit(s@[pos + d.len()])
                &&& i <= pos + d.len()
                &&& s@.subrange(pos as int, i as int) == d.subrange(0, i - pos)
            },
        decreases s@.len() - i,
    {
        proof {
            if target@ is Some {
                if i == pos + d.len() {
                    assert(!is_digit(s@[i as int]));
                }
                assert(s@[i as int] == d[i - pos]);
            }
        }
        if i > pos && s[pos] == 48 {
            proof {
                if target@ is Some {
                    assert(s@[pos as int] == d[0]);
                }
            }
            return Err(BencodeError::Malformed { offset: pos });
        }
        let c = (s[i] - 48) as u64;
        proof {
            if target@ is Some {
                let k = i - pos;
                let dk = d.subrange(0, k + 1);
                assert(dk.subrange(0, k) =~= d.subrange(0, k));
                assert(digits_value(dk) == acc * 10 + c);
                lemma_prefix_value_le(d, k + 1);
                assert(acc * 10 + c <= limit);
                assert(acc <= (limit - c) / 10) by (nonlinear_arith)
                    requires
                        acc * 10 + c <= limit,
                ;
            }
        }
        if c > limit || acc > (limit - c) / 10 {
            return Err(BencodeError::Malformed { offset: pos });
        }
        assert(acc * 10 + c <= limit) by (nonlinear_arith)
            requires
                acc <= (limit - c) / 10,
                c <= limit,
        ;
        proof {
            let sd = s@.subrange(pos as int, i + 1);
            assert(sd.subrange(0, sd.len() - 1) =~= s@.subrange(pos as int, i as int));
            if target@ is Some {
                assert(s@.subrange(pos as int, i + 1) =~= d.subrange(0, i + 1 - pos));
            }
        }
        acc = acc * 10 + c;
        i = i + 1;
    }
    proof {
        if target@ is Some {
            if i < pos + d.len() {
                assert(s@[i as int] == d[i - pos]);
                assert(is_digit(d[i - pos]));
            }
            assert(d.subrange(0, d.len() as int) =~= d);
        }
    }
    if i == pos {
        if i == s.len() {
            return Err(BencodeError::UnexpectedEnd);
        }
        return Err(BencodeError::Malformed { offset: pos });
    }
    proof {
        let sd = s@.subrange(pos as int, i as int);
        assert forall|j: int| 0 <= j < sd.len() implies is_digit(#[trigger] sd[j]) by {
            assert(sd[j] == s@[pos + j]);
        }
    }
    Ok((acc, i))
}

proof fn lemma_view_list_push(l: Seq<Value>, v: Value)
    ensures
        view_list(l.push(v)) == view_list(l).push(view_value(v)),
{
    assert(l.push(v).subrange(0, l.len() as int) =~= l);
}

proof fn lemma_view_dict_push(l: Seq<(Vec<u8>, Value)>, e: (Vec<u8>, Value))
    ensures
        view_dict(l.push(e)) == view_dict(l).push((e.0@, view_value(e.1))),
{
    assert(l.push(e).subrange(0, l.len() as int) =~= l);
}

proof fn lemma_enc_list_push(l: Seq<BValue>, b: BValue)
    ensures
        enc_list(l.push(b)) == enc_list(l) + enc(b),
{
    assert(l.push(b).subrange(0, l.len() as int) =~= l);
}

proof fn lemma_enc_dict_push(l: Seq<(Seq<u8>, BValue)>, e: (Seq<u8>, BValue))
    ensures
        enc_dict(l.push(e)) == enc_dict(l) + enc_bytes(e.0) + enc(e.1),
{
    assert(l.push(e).subrange(0, l.len() as int) =~= l);
}

/// Reads a byte string `<len>:<bytes>` at `pos`.
fn parse_string(s: &[u8], pos: usize, target: Ghost<Option<Seq<u8>>>) -> (r: Result<
    (Vec<u8>, usize),
    BencodeError,
>)
    requires
        pos <= s@.len(),
        target@ matches Some(b) ==> at(s@, pos as int, enc_bytes(b)),
    ensures
        r matches Ok((b, end)) ==> pos < end <= s@.len() && s@.subrange(pos as int, end as int)
            == enc_bytes(b@),
        target@ matches Some(b) ==> r matches Ok((v, end)) && v@ == b && end == pos + enc_bytes(
            b,
        ).len(),
{
    let len = s.len();
    let ghost b = target@.unwrap_or(Seq::<u8>::empty());
    proof {
        if target@ is Some {
            let l = nat_dec(b.len()).len() as int;
            let t = enc_bytes(b);
            assert(t.subrange(0, l) =~= nat_dec(b.len()));
            lemma_at_sub(s@, pos as int, t, 0, l);
            lemma_at_sub(s@, pos as int, t, l, l + 1);
            assert(t[l] == 58u8);
            assert(t.subrange(l + 1, t.len() as int) =~= b);
            lemma_at_sub(s@, pos as int, t, l + 1, t.len() as int);
        }
    }
    let (n, e) = parse_digits(
        s,
        pos,
        len as u64,
        Ghost(
            match target@ {
                Some(b) => Some(b.len()),
                None => None,
            },
        ),
    )?;
    if e >= s.len() {
        return Err(BencodeError::UnexpectedEnd);
    }
    if s[e] != 58 {
        return Err(BencodeError::Malformed { offset: e });
    }
    let avail = s.len() - (e + 1);
    if n > avail as u64 {
        return Err(BencodeError::UnexpectedEnd);
    }
    let end = e + 1 + n as usize;
    let v = copy_range(s, e + 1, end);
    proof {
        lemma_digits_dec(s@.subrange(pos as int, e as int));
        assert(s@.subrange(pos as int, end as int) =~= s@.subrange(pos as int, e as int) + seq![
            58u8,
        ] + v@);
        if target@ is Some {
            assert(v@ =~= b);
        }
    }
    Ok((v, end))
}

/// Reads an integer `i<n>e` at `pos`, where `s[pos]` is `i`.
fn parse_int(s: &[u8], pos: usize, target: Ghost<Option<int>>) -> (r: Result<
    (i64, usize),
    BencodeError,
>)
    requires
        pos < s@.len(),
        s@[pos as int] == 105,
        target@ matches Some(n) ==> i64::MIN <= n <= i64::MAX && at(
            s@,
            pos as int,
            enc(BValue::Int(n)),
        ),
    ensures
        r matches Ok((n, end)) ==> pos < end <= s@.len() && s@.subrange(pos as int, end as int)
            == enc(BValue::Int(n as int)),
        target@ matches Some(n) ==> r matches Ok((v, end)) && v == n && end == pos + enc(
            BValue::Int(n),
        ).len(),
{
    let len = s.len();
    let ghost t = target@.unwrap_or(0);
    let ghost m: nat = if t < 0 {
        (-t) as nat
    } else {
        t as nat
    };
    proof {
        if target@ is Some {
            lemma_int_dec_bytes(t);
            lemma_nat_dec(m);
            let x = enc(BValue::Int(t));
            let l = int_dec(t).len() as int;
            lemma_at_sub(s@, pos as int, x, l + 1, l + 2);
            assert(x[l + 1] == 101u8);
            lemma_at_sub(s@, pos as int, x, 1, 2);
            assert(x[1] == int_dec(t)[0]);
            if t < 0 {
                assert(x.subrange(2, l + 1) =~= nat_dec(m));
                lemma_at_sub(s@, pos as int, x, 2, l + 1);
            } else {
                assert(x.subrange(1, l + 1) =~= nat_dec(m));
                lemma_at_sub(s@, pos as int, x, 1, l + 1);
            }
        }
    }
    let mut q = pos + 1;
    let neg = q < s.len() && s[q] == 45;
    if neg {
        q = q + 1;
    }
    let limit: u64 = if neg {
        0x8000_0000_0000_0000
    } else {
        0x7fff_ffff_ffff_ffff
    };
    let (v, e) = parse_digits(
        s,
        q,
        limit,
        Ghost(
            if target@ is Some {
                Some(m)
            } else {
                None
            },
        ),
    )?;
    if neg && v == 0 {
        return Err(BencodeError::Malformed { offset: q });
    }
    if e >= s.len() {
        return Err(BencodeError::UnexpectedEnd);
    }
    if s[e] != 101 {
        return Err(BencodeError::Malformed { offset: e });
    }
    let n: i64 = if !neg {
        v as i64
    } else if v == 0x8000_0000_0000_0000 {
        i64::MIN
    } else {
        -(v as i64)
    };
    proof {
        let d = s@.subrange(q as int, e as int);
        lemma_digits_dec(d);
        if neg {
            assert(int_dec(n as int) == seq![45u8] + d);
            assert(s@.subrange(pos as int, e + 1) =~= seq![105u8] + (seq![45u8] + d) + seq![
                101u8,
            ]);
        } else {
            assert(s@.subrange(pos as int, e + 1) =~= seq![105u8] + d + seq![101u8]);
        }
    }
    Ok((n, e + 1))
}

/// Reads one value at `pos`; on success also returns where it ends. When `target` is a value
/// whose encoding stands at `pos`, that value is the one read.
fn parse_value(s: &[u8], pos: usize, target: Ghost<Option<BValue>>) -> (r: Result<
    (Value, usize),
    BencodeError,
>)
    requires
        pos <= s@.len(),
        target@ matches Some(b) ==> wf_value(b) && at(s@, pos as int, enc(b)),
    ensures
        r matches Ok((v, end)) ==> pos < end <= s@.len() && s@.subrange(pos as int, end as int)
            == enc(v@),
        target@ matches Some(b) ==> r matches Ok((v, end)) && v@ == b && end == pos + enc(b).len(),
    decreases s@.len() - pos,
{
    let ghost b = target@.unwrap_or(BValue::Int(0));
    proof {
        if target@ is Some {
            lemma_enc_first(b);
            assert(s@[pos as int] == enc(b)[0]);
        }
    }
    if pos >= s.len() {
        return Err(BencodeError::UnexpectedEnd);
    }
    let c = s[pos];
    if c == 105 {
        let (n, end) = parse_int(
            s,
            pos,
            Ghost(
                match target@ {
                    Some(BValue::Int(n)) => Some(n),
                    _ => None,
                },
            ),
        )?;
        Ok((Value::Int(n), end))
    } else if c >= 48 && c <= 57 {
        let (v, end) = parse_string(
            s,
            pos,
            Ghost(
                match target@ {
                    Some(BValue::Bytes(t)) => Some(t),
                    _ => None,
                },
            ),
        )?;
        Ok((Value::Bytes(v), end))
    } else if c == 108 {
        let ghost items = match b {
            BValue::List(items) => items,
            _ => Seq::<BValue>::empty(),
        };
        proof {
            if target@ is Some {
                assert(enc(b).subrange(1, enc(b).len() as int) =~= enc_list(items) + seq![101u8]);
                lemma_at_sub(s@, pos as int, enc(b), 1, enc(b).len() as int);
                assert(items.subrange(0, items.len() as int) =~= items);
            }
        }
        let mut parsed: Vec<Value> = Vec::new();
        let mut q = pos + 1;
        loop
            invariant
                pos < q <= s@.len(),
                s@.subrange(pos + 1, q as int) == enc_list(view_list(parsed@)),
                target@ is Some ==> {
                    &&& b == BValue::List(items)
                    &&& wf_value(b)
                    &&& parsed@.len() <= items.len()
                    &&& view_list(parsed@) == items.subrange(0, parsed@.len() as int)
                    &&& at(
                        s@,
                        q as int,
                        enc_list(items.subrange(parsed@.len() as int, items.len() as int)) + seq![
                            101u8,
                        ],
                    )
                },
            ensures
                q < s@.len(),
                s@[q as int] == 101,
                s@.subrange(pos + 1, q as int) == enc_list(view_list(parsed@)),
                target@ is Some ==> view_list(parsed@) == items,
            decreases s@.len() - q,
        {
            let ghost k = parsed@.len() as int;
            let ghost tail = items.subrange(k, items.len() as int);
            proof {
                if target@ is Some {
                    lemma_at_split(s@, q as int, enc_list(tail), seq![101u8]);
                    if k < items.len() {
                        lemma_enc_list_front(tail);
                        lemma_at_split(
                            s@,
                            q as int,
                            enc(tail[0]),
                            enc_list(tail.subrange(1, tail.len() as int)),
                        );
                        lemma_enc_first(tail[0]);
                        assert(s@[q as int] == enc(tail[0])[0]);
                        assert(tail[0] == items[k]);
                        lemma_wf_list(items, k);
                    } else {
                        assert(tail =~= Seq::<BValue>::empty());
                        assert(enc_list(tail) =~= Seq::<u8>::empty());
                        assert(s@.subrange(q as int, q + 1) =~= seq![101u8]);
                        assert(s@[q as int] == s@.subrange(q as int, q + 1)[0]);
                        assert(s@[q as int] == 101u8);
                        assert(items.subrange(0, k) =~= items);
                    }
                }
            }
            if q >= s.len() {
                return Err(BencodeError::UnexpectedEnd);
            }
            if s[q] == 101 {
                break ;
            }
            let (v, e) = parse_value(
                s,
                q,
                Ghost(
                    if target@ is Some {
                        Some(items[k])
                    } else {
                        None
                    },
                ),
            )?;
            proof {
                lemma_view_list_push(parsed@, v);
                lemma_enc_list_push(view_list(parsed@), v@);
                assert(s@.subrange(pos + 1, e as int) =~= s@.subrange(pos + 1, q as int)
                    + s@.subrange(q as int, e as int));
                if target@ is Some {
                    assert(tail[0] == items[k]);
                    assert(tail.subrange(1, tail.len() as int) =~= items.subrange(
                        k + 1,
                        items.len() as int,
                    ));
                    assert(items.subrange(0, k + 1) =~= items.subrange(0, k).push(items[k]));
                    assert(enc_list(tail) + seq![101u8] =~= enc(tail[0]) + (enc_list(
                        tail.subrange(1, tail.len() as int),
                    ) + seq![101u8]));
                    lemma_at_split(
                        s@,
                        q as int,
                        enc(tail[0]),
                        enc_list(tail.subrange(1, tail.len() as int)) + seq![101u8],
                    );
                }
            }
            parsed.push(v);
            q = e;
        }
        let v = Value::List(parsed);
        assert(s@.subrange(pos as int, q + 1) =~= seq![108u8] + s@.subrange(pos + 1, q as int)
            + seq![101u8]);
        Ok((v, q + 1))
    } else if c == 100 {
        let ghost es = match b {
            BValue::Dict(es) => es,
            _ => Seq::<(Seq<u8>, BValue)>::empty(),
        };
        proof {
            if target@ is Some {
                assert(enc(b).subrange(1, enc(b).len() as int) =~= enc_dict(es) + seq![101u8]);
                lemma_at_sub(s@, pos as int, enc(b), 1, enc(b).len() as int);
                assert(es.subrange(0, es.len() as int) =~= es);
            }
        }
        let mut entries: Vec<(Vec<u8>, Value)> = Vec::new();
        let mut q = pos + 1;
        loop
            invariant
                pos < q <= s@.len(),
                s@.subrange(pos + 1, q as int) == enc_dict(view_dict(entries@)),
                target@ is Some ==> {
                    &&& b == BValue::Dict(es)
                    &&& wf_value(b)
                    &&& entries@.len() <= es.len()
                    &&& view_dict(entries@) == es.subrange(0, entries@.len() as int)
                    &&& at(
                        s@,
                        q as int,
                        enc_dict(es.subrange(entries@.len() as int, es.len() as int)) + seq![
                            101u8,
                        ],
                    )
                },
            ensures
                q < s@.len(),
                s@[q as int] == 101,
                s@.subrange(pos + 1, q as int) == enc_dict(view_dict(entries@)),
                target@ is Some ==> view_dict(entries@) == es,
            decreases s@.len() - q,
        {
            let ghost k = entries@.len() as int;
            let ghost tail = es.subrange(k, es.len() as int);
            proof {
                if target@ is Some {
                    lemma_at_split(s@, q as int, enc_dict(tail), seq![101u8]);
                    if k < es.len() {
                        lemma_enc_dict_front(tail);
                        lemma_at_split(
                            s@,
                            q as int,
                            enc_bytes(tail[0].0) + enc(tail[0].1),
                            enc_dict(tail.subrange(1, tail.len() as int)),
                        );
                        lemma_at_split(s@, q as int, enc_bytes(tail[0].0), enc(tail[0].1));
                        lemma_enc_first(BValue::Bytes(tail[0].0));
                        assert(s@[q as int] == enc_bytes(tail[0].0)[0]);
                        assert(tail[0] == es[k]);
                        lemma_wf_dict(es, k);
                    } else {
                        assert(tail =~= Seq::<(Seq<u8>, BValue)>::empty());
                        assert(enc_dict(tail) =~= Seq::<u8>::empty());
                        assert(s@.subrange(q as int, q + 1) =~= seq![101u8]);
                        assert(s@[q as int] == s@.subrange(q as int, q + 1)[0]);
                        assert(s@[q as int] == 101u8);
                        assert(es.subrange(0, k) =~= es);
                    }
                }
            }
            if q >= s.len() {
                return Err(BencodeError::UnexpectedEnd);
            }
            if s[q] == 101 {
                break ;
            }
            let (key, e1) = parse_string(
                s,
                q,
                Ghost(
                    if target@ is Some {
                        Some(es[k].0)
                    } else {
                        None
                    },
                ),
            )?;
            let (v, e2) = parse_value(
                s,
                e1,
                Ghost(
                    if target@ is Some {
                        Some(es[k].1)
                    } else {
                        None
                    },
                ),
            )?;
            proof {
                lemma_view_dict_push(entries@, (key, v));
                lemma_enc_dict_push(view_dict(entries@), (key@, v@));
                assert(s@.subrange(pos + 1, e2 as int) =~= s@.subrange(pos + 1, q as int)
                    + s@.subrange(q as int, e1 as int) + s@.subrange(e1 as int, e2 as int));
                if target@ is Some {
                    assert(tail[0] == es[k]);
                    assert(tail.subrange(1, tail.len() as int) =~= es.subrange(
                        k + 1,
                        es.len() as int,
                    ));
                    assert(es.subrange(0, k + 1) =~= es.subrange(0, k).push(es[k]));
                    assert(es[k] == (key@, v@));
                    assert(enc_dict(tail) + seq![101u8] =~= enc_bytes(tail[0].0) + enc(tail[0].1) + (
                    enc_dict(tail.subrange(1, tail.len() as int)) + seq![101u8]));
                    lemma_at_split(
                        s@,
                        q as int,
                        enc_bytes(tail[0].0) + enc(tail[0].1),
                        enc_dict(tail.subrange(1, tail.len() as int)) + seq![101u8],
                    );
                }
            }
            entries.push((key, v));
            q = e2;
        }
        let v = Value::Dict(entries);
        assert(s@.subrange(pos as int, q + 1) =~= seq![100u8] + s@.subrange(pos + 1, q as int)
            + seq![101u8]);
        Ok((v, q + 1))
    } else {
        Err(BencodeError::Malformed { offset: pos })
    }
}

/// Appends the decimal digits of `n`.
pub fn write_nat(n: u64, out: &mut Vec<u8>)
    ensures
        final(out)@ == old(out)@ + nat_dec(n as nat),
    decreases n,
{
    if n < 10 {
        out.push((48 + n) as u8);
        assert(final(out)@ =~= old(out)@ + nat_dec(n as nat));
    } else {
        write_nat(n / 10, out);
        out.push((48 + n % 10) as u8);
        assert(final(out)@ =~= old(out)@ + nat_dec(n as nat));
    }
}

/// Appends the decimal form of `n`.
fn write_int(n: i64, out: &mut Vec<u8>)
    ensures
        final(out)@ == old(out)@ + int_dec(n as int),
{
    if n < 0 {
        out.push(45);
        let m: u64 = if n == i64::MIN {
            0x8000_0000_0000_0000
        } else {
            (-n) as u64
        };
        write_nat(m, out);
        assert(final(out)@ =~= old(out)@ + int_dec(n as int));
    } else {
        write_nat(n as u64, out);
    }
}

/// Appends `<len>:<bytes>`.
fn write_bytes(b: &[u8], out: &mut Vec<u8>)
    ensures
        final(out)@ == old(out)@ + enc_bytes(b@),
{
    write_nat(b.len() as u64, out);
    out.push(58);
    push_all(out, b);
    assert(final(out)@ =~= old(out)@ + enc_bytes(b@));
}

/// Appends the bencoding of `v`.
pub fn write_value(v: &Value, out: &mut Vec<u8>)
    ensures
        final(out)@ == old(out)@ + enc(v@),
    decreases v,
{
    match v {
        Value::Int(n) => {
            out.push(105);
            write_int(*n, out);
            out.push(101);
            assert(final(out)@ =~= old(out)@ + enc(v@));
        },
        Value::Bytes(b) => {
            write_bytes(b.as_slice(), out);
        },
        Value::List(items) => {
            out.push(108);
            let mut i: usize = 0;
            assert(decreases_to!(*v => *items));
            while i < items.len()
                invariant
                    decreases_to!(*v => *items),
                    i <= items@.len(),
                    out@ == old(out)@ + seq![108u8] + enc_list(
                        view_list(items@.subrange(0, i as int)),
                    ),
                decreases items@.len() - i,
            {
                proof {
                    assert(items@.subrange(0, i + 1) =~= items@.subrange(0, i as int).push(
                        items@[i as int],
                    ));
                    lemma_view_list_push(items@.subrange(0, i as int), items@[i as int]);
                    lemma_enc_list_push(
                        view_list(items@.subrange(0, i as int)),
                        view_value(items@[i as int]),
                    );
                    assert(decreases_to!(*items => items@[i as int]));
                }
                write_value(&items[i], out);
                i = i + 1;
            }
            out.push(101);
            assert(items@.subrange(0, i as int) =~= items@);
            assert(final(out)@ =~= old(out)@ + enc(v@));
        },
        Value::Dict(entries) => {
            out.push(100);
            let mut i: usize = 0;
            assert(decreases_to!(*v => *entries));
            while i < entries.len()
                invariant
                    decreases_to!(*v => *entries),
                    i <= entries@.len(),
                    out@ == old(out)@ + seq![100u8] + enc_dict(
                        view_dict(entries@.subrange(0, i as int)),
                    ),
                decreases entries@.len() - i,
            {
                proof {
                    assert(entries@.subrange(0, i + 1) =~= entries@.subrange(0, i as int).push(
                        entries@[i as int],
                    ));
                    lemma_view_dict_push(entries@.subrange(0, i as int), entries@[i as int]);
                    lemma_enc_dict_push(
                        view_dict(entries@.subrange(0, i as int)),
                        (entries@[i as int].0@, view_value(entries@[i as int].1)),
                    );
                    assert(decreases_to!(*entries => entries[i as int]));
                    assert(decreases_to!(entries[i as int] => entries[i as int].1));
                }
                let entry = &entries[i];
                write_bytes(entry.0.as_slice(), out);
                write_value(&entry.1, out);
                i = i + 1;
            }
            out.push(101);
            assert(entries@.subrange(0, i as int) =~= entries@);
            assert(final(out)@ =~= old(out)@ + enc(v@));
        },
    }
}

/// The bencoding of `v`. Dictionary entries are written in the order they are held, so a value
/// decoded from input is written back byte for byte, and a value whose dictionaries have strictly
/// ascending keys is written in canonical form.
pub fn encode(v: &Value) -> (r: Vec<u8>)
    ensures
        r@ == enc(v@),
{
    let mut out: Vec<u8> = Vec::new();
    write_value(v, &mut out);
    assert(out@ =~= enc(v@));
    out
}

/// Decodes exactly one value that spans all of `s`: the result is the one value whose encoding
/// `s` is, and there is such a value exactly when the result is `Ok`.
pub fn decode(s: &[u8]) -> (r: Result<Value, BencodeError>)
    ensures
        r matches Ok(v) ==> enc(v@) == s@,
        forall|b: BValue| wf_value(b) && enc(b) == s@ ==> (r matches Ok(v) && v@ == b),
{
    let ghost target: Option<BValue> = if exists|b: BValue| wf_value(b) && enc(b) == s@ {
        Some(choose|b: BValue| wf_value(b) && enc(b) == s@)
    } else {
        None
    };
    proof {
        if let Some(b) = target {
            assert(s@.subrange(0, enc(b).len() as int) =~= enc(b));
        }
    }
    let (v, end) = parse_value(s, 0, Ghost(target))?;
    proof {
        assert forall|b: BValue| wf_value(b) && enc(b) == s@ implies v@ == b by {
            let c = target->0;
            assert(enc(c) + Seq::<u8>::empty() =~= enc(b) + Seq::<u8>::empty());
            lemma_enc_prefix_free(c, b, Seq::<u8>::empty(), Seq::<u8>::empty());
        }
    }
    if end != s.len() {
        return Err(BencodeError::TrailingGarbage { offset: end });
    }
    assert(s@.subrange(0, end as int) =~= s@);
    Ok(v)
}

} // verus!
