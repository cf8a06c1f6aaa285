//! Bencoded data: a tagged tree of integers, byte strings, lists and
//! key-ordered maps, with an encoder and a strict decoder that are exact
//! inverses on every well-formed tree.

use vstd::prelude::*;

verus! {

/// Mathematical model of a bencoded value.
pub enum Bval {
    Int(int),
    Str(Seq<u8>),
    List(Seq<Bval>),
    Dict(Seq<(Seq<u8>, Bval)>),
}

/// Decimal digit bytes of `n`, most significant first.
pub open spec fn dec_digits(n: nat) -> Seq<u8>
    decreases n,
{
    if n < 10 {
        seq![(48 + n) as u8]
    } else {
        dec_digits(n / 10) + seq![(48 + n % 10) as u8]
    }
}

/// Decimal literal of a possibly negative integer.
pub open spec fn int_lit(i: int) -> Seq<u8> {
    if i < 0 {
        seq![45u8] + dec_digits((-i) as nat)
    } else {
        dec_digits(i as nat)
    }
}

/// Bencoding of a byte string: its length in decimal, a colon, the bytes.
pub open spec fn enc_str(s: Seq<u8>) -> Seq<u8> {
    dec_digits(s.len()) + seq![58u8] + s
}

/// Bencoding of one value.
pub open spec fn enc(v: Bval) -> Seq<u8>
    decreases v,
{
    match v {
        Bval::Int(i) => seq![105u8] + int_lit(i) + seq![101u8],
        Bval::Str(s) => enc_str(s),
        Bval::List(l) => seq![108u8] + enc_seq(l) + seq![101u8],
        Bval::Dict(d) => seq![100u8] + enc_pairs(d) + seq![101u8],
    }
}

/// Bencoding of a sequence of values, in order.
pub open spec fn enc_seq(l: Seq<Bval>) -> Seq<u8>
    decreases l,
{
    if l.len() == 0 {
        Seq::empty()
    } else {
        enc(l[0]) + enc_seq(l.subrange(1, l.len() as int))
    }
}

/// Bencoding of a sequence of key/value pairs, in order.
pub open spec fn enc_pairs(d: Seq<(Seq<u8>, Bval)>) -> Seq<u8>
    decreases d,
{
    if d.len() == 0 {
        Seq::empty()
    } else {
        enc_str(d[0].0) + enc(d[0].1) + enc_pairs(d.subrange(1, d.len() as int))
    }
}

/// Integers a bencoded tree can carry: those of a 64-bit signed word.
pub open spec fn wf_int(i: int) -> bool {
    i64::MIN <= i <= i64::MAX
}

/// Well-formed tree: every integer fits a 64-bit signed word.
pub open spec fn wf_bval(v: Bval) -> bool
    decreases v,
{
    match v {
        Bval::Int(i) => wf_int(i),
        Bval::Str(_) => true,
        Bval::List(l) => forall|k: int| 0 <= k < l.len() ==> wf_bval(#[trigger] l[k]),
        Bval::Dict(d) => forall|k: int| 0 <= k < d.len() ==> wf_bval(#[trigger] d[k].1),
    }
}

/// A bencoded value as the decoder returns it and the encoder takes it.
///
/// A dictionary is an association list in on-wire key order. On the wire a
/// dictionary's keys are unique and ascending, and then the order of this
/// list is that order and lookup is unambiguous. The list itself does not
/// force that: under duplicate keys, lookup here takes the first binding,
/// where an ordered map would have kept only the last insertion.
pub enum Item {
    Int(i64),
    String(Vec<u8>),
    List(Vec<Item>),
    Dict(Vec<(Vec<u8>, Item)>),
}

impl Item {
    /// The tree this value stands for.
    pub open spec fn v(self) -> Bval
        decreases self,
    {
        match self {
            Item::Int(i) => Bval::Int(i as int),
            Item::String(s) => Bval::Str(s@),
            Item::List(l) => Bval::List(views(l@)),
            Item::Dict(d) => Bval::Dict(pair_views(d@)),
        }
    }
}

/// First value stored under `key`, if any. On well-formed dictionaries
/// (unique keys) this is the only binding; under duplicate keys the first
/// one wins.
pub open spec fn spec_dict_get(d: Seq<(Vec<u8>, Item)>, key: Seq<u8>) -> Option<Item>
    decreases d,
{
    if d.len() == 0 {
        None
    } else if d[0].0@ == key {
        Some(d[0].1)
    } else {
        spec_dict_get(d.subrange(1, d.len() as int), key)
    }
}

/// Compares two byte vectors.
pub fn bytes_eq(a: &Vec<u8>, b: &Vec<u8>) -> (r: bool)
    ensures
        r == (a@ == b@),
{
    if a.len() != b.len() {
        proof {
            assert(a@ != b@);
        }
        return false;
    }
    let mut i: usize = 0;
    while i < a.len()
        invariant
            i <= a@.len(),
            a@.len() == b@.len(),
            forall|j: int| 0 <= j < i ==> a@[j] == b@[j],
        decreases a@.len() - i,
    {
        if a[i] != b[i] {
            return false;
        }
        i += 1;
    }
    proof {
        assert(a@ =~= b@);
    }
    true
}

impl Item {
    /// The integer this value holds; only an integer item has one.
    pub fn get_int(&self) -> (r: i64)
        requires
            self is Int,
        ensures
            r == self->Int_0,
    {
        match self {
            Item::Int(i) => *i,
            _ => vstd::pervasive::unreached(),
        }
    }

    /// The byte string this value holds; only a string item has one.
    pub fn get_str(&self) -> (r: &Vec<u8>)
        requires
            self is String,
        ensures
            r == self->String_0,
    {
        match self {
            Item::String(s) => s,
            _ => vstd::pervasive::unreached(),
        }
    }

    /// The list this value holds; only a list item has one.
    pub fn get_list(&self) -> (r: &Vec<Item>)
        requires
            self is List,
        ensures
            r == self->List_0,
    {
        match self {
            Item::List(l) => l,
            _ => vstd::pervasive::unreached(),
        }
    }

    /// The key/value pairs this value holds; only a dictionary item has them.
    pub fn get_dict(&self) -> (r: &Vec<(Vec<u8>, Item)>)
        requires
            self is Dict,
        ensures
            r == self->Dict_0,
    {
        match self {
            Item::Dict(d) => d,
            _ => vstd::pervasive::unreached(),
        }
    }

    /// Looks `key` up in a dictionary item; the first binding wins, which
    /// on a well-formed dictionary (unique keys) is the only one.
    pub fn dict_get(&self, key: &Vec<u8>) -> (r: Option<&Item>)
        requires
            self is Dict,
        ensures
            match r {
                Some(it) => spec_dict_get(self->Dict_0@, key@) == Some(*it),
                None => spec_dict_get(self->Dict_0@, key@) is None,
            },
    {
        let d = self.get_dict();
        proof {
            assert(d@.subrange(0, d@.len() as int) =~= d@);
        }
        let mut i: usize = 0;
        while i < d.len()
            invariant
                i <= d@.len(),
                spec_dict_get(self->Dict_0@, key@)
                    == spec_dict_get(d@.subrange(i as int, d@.len() as int), key@),
                d == self->Dict_0,
            decreases d@.len() - i,
        {
            proof {
                let sub = d@.subrange(i as int, d@.len() as int);
                assert(sub[0] == d@[i as int]);
                assert(sub.subrange(1, sub.len() as int)
                    =~= d@.subrange(i + 1int, d@.len() as int));
            }
            if bytes_eq(&d[i].0, key) {
                return Some(&d[i].1);
            }
            i += 1;
        }
        proof {
            assert(d@.subrange(d@.len() as int, d@.len() as int)
                =~= Seq::<(Vec<u8>, Item)>::empty());
        }
        None
    }
}

/// Trees of a sequence of items.
pub open spec fn views(s: Seq<Item>) -> Seq<Bval>
    decreases s,
{
    if s.len() == 0 {
        Seq::empty()
    } else {
        seq![s[0].v()] + views(s.subrange(1, s.len() as int))
    }
}

/// Trees of a sequence of key/item pairs.
pub open spec fn pair_views(s: Seq<(Vec<u8>, Item)>) -> Seq<(Seq<u8>, Bval)>
    decreases s,
{
    if s.len() == 0 {
        Seq::empty()
    } else {
        seq![(s[0].0@, s[0].1.v())] + pair_views(s.subrange(1, s.len() as int))
    }
}

/// `views` is pointwise `v`.
pub proof fn lemma_views_index(s: Seq<Item>)
    ensures
        views(s).len() == s.len(),
        forall|i: int| 0 <= i < s.len() ==> #[trigger] views(s)[i] == s[i].v(),
    decreases s,
{
    if s.len() > 0 {
        let sub = s.subrange(1, s.len() as int);
        lemma_views_index(sub);
        assert forall|i: int| 0 <= i < s.len() implies #[trigger] views(s)[i] == s[i].v() by {
            if i > 0 {
                assert(sub[i - 1] == s[i]);
                assert(views(s)[i] == views(sub)[i - 1]);
            }
        }
    }
}

/// `pair_views` keeps each key and maps each value through `v`.
pub proof fn lemma_pair_views_index(s: Seq<(Vec<u8>, Item)>)
    ensures
        pair_views(s).len() == s.len(),
        forall|i: int| 0 <= i < s.len() ==> #[trigger] pair_views(s)[i]
            == (s[i].0@, s[i].1.v()),
    decreases s,
{
    if s.len() > 0 {
        let sub = s.subrange(1, s.len() as int);
        lemma_pair_views_index(sub);
        assert forall|i: int| 0 <= i < s.len() implies #[trigger] pair_views(s)[i]
            == (s[i].0@, s[i].1.v()) by {
            if i > 0 {
                assert(sub[i - 1] == s[i]);
                assert(pair_views(s)[i] == pair_views(sub)[i - 1]);
            }
        }
    }
}

/// Every item stands for a well-formed tree.
pub proof fn lemma_item_wf(it: Item)
    ensures
        wf_bval(it.v()),
    decreases it,
{
    match it {
        Item::Int(_) => {}
        Item::String(_) => {}
        Item::List(l) => {
            lemma_views_index(l@);
            assert forall|k: int| 0 <= k < views(l@).len()
                implies wf_bval(#[trigger] views(l@)[k]) by {
                lemma_item_wf(l@[k]);
            }
        }
        Item::Dict(d) => {
            lemma_pair_views_index(d@);
            assert forall|k: int| 0 <= k < pair_views(d@).len()
                implies wf_bval(#[trigger] pair_views(d@)[k].1) by {
                assert(pair_views(d@)[k] == (d@[k].0@, d@[k].1.v()));
                lemma_item_wf(d@[k].1);
            }
        }
    }
}

/// Every sequence of items stands for a well-formed tree sequence, so
/// what `encode` emits always satisfies the decoder's round-trip clause.
pub proof fn lemma_views_wf(s: Seq<Item>)
    ensures
        wf_seq(views(s)),
{
    lemma_views_index(s);
    assert forall|k: int| 0 <= k < views(s).len()
        implies wf_bval(#[trigger] views(s)[k]) by {
        lemma_item_wf(s[k]);
    }
}

/// Number denoted by decimal digit bytes, most significant first.
pub open spec fn from_digits(ds: Seq<u8>) -> int
    decreases ds,
{
    if ds.len() == 0 {
        0
    } else {
        from_digits(ds.drop_last()) * 10 + (ds.last() - 48)
    }
}

/// A decimal digit byte.
pub open spec fn is_digit(b: u8) -> bool {
    48 <= b <= 57
}

/// Digit run without a leading zero (a single zero stands alone).
pub open spec fn canonical_digits(ds: Seq<u8>) -> bool {
    &&& ds.len() >= 1
    &&& forall|i: int| 0 <= i < ds.len() ==> is_digit(#[trigger] ds[i])
    &&& (ds.len() > 1 ==> ds[0] != 48)
}

/// The digits of `n` form a canonical run.
pub proof fn lemma_dec_digits_props(n: nat)
    ensures
        canonical_digits(dec_digits(n)),
        n > 0 ==> dec_digits(n)[0] != 48,
    decreases n,
{
    if n >= 10 {
        lemma_dec_digits_props(n / 10);
        let pre = dec_digits(n / 10);
        let ds = dec_digits(n);
        assert(ds == pre + seq![(48 + n % 10) as u8]);
        assert(forall|i: int| 0 <= i < pre.len() ==> ds[i] == #[trigger] pre[i]);
        assert(is_digit(ds[ds.len() - 1]));
    }
}

/// Reading back the digits of `n` yields `n`.
pub proof fn lemma_from_dec(n: nat)
    ensures
        from_digits(dec_digits(n)) == n,
    decreases n,
{
    if n < 10 {
        let ds = dec_digits(n);
        assert(ds.drop_last() =~= Seq::<u8>::empty());
        assert(from_digits(Seq::<u8>::empty()) == 0);
        assert(from_digits(ds) == from_digits(ds.drop_last()) * 10 + (ds.last() - 48));
        assert(ds.last() == (48 + n) as u8);
    } else {
        lemma_from_dec(n / 10);
        let pre = dec_digits(n / 10);
        let ds = dec_digits(n);
        assert(ds == pre + seq![(48 + n % 10) as u8]);
        assert(ds.drop_last() =~= pre);
        assert(ds.last() == (48 + n % 10) as u8);
    }
}

/// A canonical digit run other than "0" denotes a positive number.
pub proof fn lemma_from_digits_pos(ds: Seq<u8>)
    requires
        canonical_digits(ds),
        ds[0] != 48,
    ensures
        from_digits(ds) >= 1,
    decreases ds,
{
    if ds.len() == 1 {
        assert(ds.drop_last() =~= Seq::<u8>::empty());
        assert(ds.last() == ds[0]);
        assert(from_digits(Seq::<u8>::empty()) == 0);
        assert(from_digits(ds) == ds[0] - 48);
    } else {
        let pre = ds.drop_last();
        assert(pre[0] == ds[0]);
        lemma_from_digits_pos(pre);
    }
}

/// Digit runs denote non-negative numbers.
pub proof fn lemma_from_digits_nonneg(ds: Seq<u8>)
    requires
        forall|i: int| 0 <= i < ds.len() ==> is_digit(#[trigger] ds[i]),
    ensures
        from_digits(ds) >= 0,
    decreases ds,
{
    if ds.len() > 0 {
        lemma_from_digits_nonneg(ds.drop_last());
    }
}

/// Writing the number a canonical run denotes yields that run back.
pub proof fn lemma_dec_from(ds: Seq<u8>)
    requires
        canonical_digits(ds),
    ensures
        from_digits(ds) >= 0,
        dec_digits(from_digits(ds) as nat) == ds,
    decreases ds,
{
    lemma_from_digits_nonneg(ds);
    if ds.len() == 1 {
        assert(ds.drop_last() =~= Seq::<u8>::empty());
        assert(ds.last() == ds[0]);
        assert(from_digits(Seq::<u8>::empty()) == 0);
        assert(from_digits(ds) == ds[0] - 48);
        assert(dec_digits((ds[0] - 48) as nat) =~= ds);
    } else {
        let pre = ds.drop_last();
        let d = ds.last() - 48;
        assert(pre[0] == ds[0]);
        lemma_dec_from(pre);
        lemma_from_digits_pos(pre);
        let m = from_digits(pre);
        let n = from_digits(ds);
        assert(n == m * 10 + d);
        assert(n / 10 == m && n % 10 == d) by (nonlinear_arith)
            requires n == m * 10 + d, 0 <= d <= 9, m >= 1,
        ;
        assert(n >= 10) by (nonlinear_arith)
            requires n == m * 10 + d, d >= 0, m >= 1,
        ;
        assert(dec_digits(n as nat) == dec_digits((n / 10) as nat) + seq![(48 + n % 10) as u8]);
        assert(dec_digits(n as nat) =~= ds);
    }
}

/// A prefix of a digit run denotes at most what the whole run denotes.
pub proof fn lemma_from_digits_take_le(ds: Seq<u8>, k: int)
    requires
        forall|i: int| 0 <= i < ds.len() ==> is_digit(#[trigger] ds[i]),
        0 <= k <= ds.len(),
    ensures
        from_digits(ds.take(k)) <= from_digits(ds),
    decreases ds.len() - k,
{
    if k == ds.len() {
        assert(ds.take(k) =~= ds);
    } else {
        lemma_from_digits_take_le(ds, k + 1);
        let a = ds.take(k);
        let b = ds.take(k + 1);
        assert(b.drop_last() =~= a);
        lemma_from_digits_nonneg(a);
        assert(from_digits(b) == from_digits(a) * 10 + (ds[k] - 48));
        assert(from_digits(a) <= from_digits(a) * 10) by (nonlinear_arith)
            requires from_digits(a) >= 0,
        ;
    }
}

/// Appends the decimal digits of `n`.
pub fn push_decimal(out: &mut Vec<u8>, n: u64)
    ensures
        final(out)@ == old(out)@ + dec_digits(n as nat),
    decreases n,
{
    if n < 10 {
        out.push(48 + n as u8);
        proof {
            assert(out@ =~= old(out)@ + dec_digits(n as nat));
        }
    } else {
        push_decimal(out, n / 10);
        out.push(48 + (n % 10) as u8);
        proof {
            assert(out@ =~= old(out)@ + dec_digits(n as nat));
        }
    }
}

/// Appending one value extends a sequence encoding on the right.
pub proof fn lemma_enc_seq_push(s: Seq<Bval>, v: Bval)
    ensures
        enc_seq(s.push(v)) == enc_seq(s) + enc(v),
    decreases s,
{
    if s.len() == 0 {
        assert(s.push(v)[0] == v);
        assert(s.push(v).subrange(1, 1) =~= Seq::<Bval>::empty());
        assert(enc_seq(Seq::<Bval>::empty()) == Seq::<u8>::empty());
        assert(enc_seq(s.push(v)) == enc(v) + enc_seq(s.push(v).subrange(1, 1)));
        assert(enc_seq(s.push(v)) =~= enc_seq(s) + enc(v));
    } else {
        let t = s.subrange(1, s.len() as int);
        lemma_enc_seq_push(t, v);
        assert(s.push(v).subrange(1, s.len() as int + 1) =~= t.push(v));
        assert(s.push(v)[0] == s[0]);
        assert(enc_seq(s.push(v)) == enc(s[0]) + (enc_seq(t) + enc(v)));
        assert(enc(s[0]) + (enc_seq(t) + enc(v)) =~= (enc(s[0]) + enc_seq(t)) + enc(v));
        assert(enc_seq(s) == enc(s[0]) + enc_seq(t));
    }
}

/// Appending one pair extends a pair-sequence encoding on the right.
pub proof fn lemma_enc_pairs_push(s: Seq<(Seq<u8>, Bval)>, k: Seq<u8>, v: Bval)
    ensures
        enc_pairs(s.push((k, v))) == enc_pairs(s) + enc_str(k) + enc(v),
    decreases s,
{
    if s.len() == 0 {
        assert(s.push((k, v))[0] == (k, v));
        assert(s.push((k, v)).subrange(1, 1) =~= Seq::<(Seq<u8>, Bval)>::empty());
        assert(enc_pairs(Seq::<(Seq<u8>, Bval)>::empty()) == Seq::<u8>::empty());
        assert(enc_pairs(s.push((k, v)))
            == enc_str(k) + enc(v) + enc_pairs(s.push((k, v)).subrange(1, 1)));
        assert(enc_pairs(s.push((k, v))) =~= enc_pairs(s) + enc_str(k) + enc(v));
    } else {
        let t = s.subrange(1, s.len() as int);
        lemma_enc_pairs_push(t, k, v);
        assert(s.push((k, v)).subrange(1, s.len() as int + 1) =~= t.push((k, v)));
        assert(s.push((k, v))[0] == s[0]);
        let head = enc_str(s[0].0) + enc(s[0].1);
        assert(enc_pairs(s.push((k, v))) == head + (enc_pairs(t) + enc_str(k) + enc(v)));
        assert(enc_pairs(s) == head + enc_pairs(t));
        assert(head + (enc_pairs(t) + enc_str(k) + enc(v))
            =~= (head + enc_pairs(t)) + enc_str(k) + enc(v));
    }
}

/// Appends the bencoding of a byte string: decimal length, colon, bytes.
fn push_str_enc(out: &mut Vec<u8>, s: &Vec<u8>)
    ensures
        final(out)@ == old(out)@ + enc_str(s@),
{
    push_decimal(out, s.len() as u64);
    out.push(58);
    let ghost mid = out@;
    let mut k: usize = 0;
    while k < s.len()
        invariant
            k <= s@.len(),
            out@ == mid + s@.take(k as int),
        decreases s@.len() - k,
    {
        out.push(s[k]);
        proof {
            assert(out@ =~= mid + s@.take(k + 1));
        }
        k += 1;
    }
    proof {
        assert(s@.take(s@.len() as int) =~= s@);
        assert(old(out)@ + dec_digits(s@.len()) + seq![58u8] + s@
            =~= old(out)@ + (dec_digits(s@.len()) + seq![58u8] + s@));
        assert(out@ =~= old(out)@ + enc_str(s@));
    }
}

/// Appends the bencoding of one item.
pub fn encode_item(out: &mut Vec<u8>, it: &Item)
    ensures
        final(out)@ == old(out)@ + enc(it.v()),
    decreases it,
{
    match it {
        Item::Int(i) => {
            out.push(105);
            if *i < 0 {
                out.push(45);
                let mag: u64 = if *i == i64::MIN {
                    9223372036854775808u64
                } else {
                    (-*i) as u64
                };
                push_decimal(out, mag);
                proof {
                    assert(mag as nat == (-(*i as int)) as nat);
                }
            } else {
                push_decimal(out, *i as u64);
            }
            out.push(101);
            proof {
                assert(out@ =~= old(out)@ + enc(it.v()));
            }
        }
        Item::String(s) => {
            push_str_enc(out, s);
        }
        Item::List(l) => {
            out.push(108);
            let ghost base = out@;
            let mut k: usize = 0;
            while k < l.len()
                invariant
                    *it == Item::List(*l),
                    k <= l@.len(),
                    out@ == base + enc_seq(views(l@.take(k as int))),
                decreases l@.len() - k,
            {
                let ghost pre = out@;
                proof {
                    assert(*it == Item::List(*l));
                    assert(decreases_to!(*it => it->List_0@[k as int]));
                }
                encode_item(out, &l[k]);
                proof {
                    lemma_views_index(l@.take(k as int));
                    lemma_views_index(l@.take(k + 1));
                    assert(views(l@.take(k + 1)) =~= views(l@.take(k as int)).push(l@[k as int].v()));
                    lemma_enc_seq_push(views(l@.take(k as int)), l@[k as int].v());
                    assert(out@ =~= base + enc_seq(views(l@.take(k + 1))));
                }
                k += 1;
            }
            out.push(101);
            proof {
                assert(l@.take(l@.len() as int) =~= l@);
                assert(out@ =~= old(out)@ + enc(it.v()));
            }
        }
        Item::Dict(d) => {
            out.push(100);
            let ghost base = out@;
            let mut k: usize = 0;
            while k < d.len()
                invariant
                    *it == Item::Dict(*d),
                    k <= d@.len(),
                    out@ == base + enc_pairs(pair_views(d@.take(k as int))),
                decreases d@.len() - k,
            {
                push_str_enc(out, &d[k].0);
                proof {
                    assert(*it == Item::Dict(*d));
                    assert(decreases_to!(*it => it->Dict_0@[k as int].1));
                }
                encode_item(out, &d[k].1);
                proof {
                    lemma_pair_views_index(d@.take(k as int));
                    lemma_pair_views_index(d@.take(k + 1));
                    assert(pair_views(d@.take(k + 1))
                        =~= pair_views(d@.take(k as int)).push((d@[k as int].0@, d@[k as int].1.v())));
                    lemma_enc_pairs_push(
                        pair_views(d@.take(k as int)),
                        d@[k as int].0@,
                        d@[k as int].1.v(),
                    );
                    assert(out@ =~= base + enc_pairs(pair_views(d@.take(k + 1))));
                }
                k += 1;
            }
            out.push(101);
            proof {
                assert(d@.take(d@.len() as int) =~= d@);
                assert(out@ =~= old(out)@ + enc(it.v()));
            }
        }
    }
}

/// Bencodes a sequence of items, in order.
pub fn encode(tree: &Vec<Item>) -> (r: Vec<u8>)
    ensures
        r@ == enc_seq(views(tree@)),
{
    let mut out: Vec<u8> = Vec::new();
    let mut k: usize = 0;
    while k < tree.len()
        invariant
            k <= tree@.len(),
            out@ == enc_seq(views(tree@.take(k as int))),
        decreases tree@.len() - k,
    {
        encode_item(&mut out, &tree[k]);
        proof {
            lemma_views_index(tree@.take(k as int));
            lemma_views_index(tree@.take(k + 1));
            assert(views(tree@.take(k + 1))
                =~= views(tree@.take(k as int)).push(tree@[k as int].v()));
            lemma_enc_seq_push(views(tree@.take(k as int)), tree@[k as int].v());
            assert(out@ =~= enc_seq(views(tree@.take(k + 1))));
        }
        k += 1;
    }
    proof {
        assert(tree@.take(tree@.len() as int) =~= tree@);
    }
    out
}

/// Length of the digit run that starts at `pos`.
pub open spec fn digit_run_len(buf: Seq<u8>, pos: int) -> int
    decreases buf.len() - pos when 0 <= pos <= buf.len()
{
    if pos < buf.len() && is_digit(buf[pos]) {
        1 + digit_run_len(buf, pos + 1)
    } else {
        0
    }
}

/// The digit run that starts at `pos`.
pub open spec fn digit_run(buf: Seq<u8>, pos: int) -> Seq<u8> {
    buf.subrange(pos, pos + digit_run_len(buf, pos))
}

/// The digit run lies in bounds and is all digits, and the byte after it,
/// if any, is no digit.
pub proof fn lemma_digit_run_props(buf: Seq<u8>, pos: int)
    requires
        0 <= pos <= buf.len(),
    ensures
        0 <= digit_run_len(buf, pos),
        pos + digit_run_len(buf, pos) <= buf.len(),
        forall|i: int| pos <= i < pos + digit_run_len(buf, pos) ==> is_digit(#[trigger] buf[i]),
        pos + digit_run_len(buf, pos) < buf.len()
            ==> !is_digit(buf[pos + digit_run_len(buf, pos)]),
    decreases buf.len() - pos,
{
    if pos < buf.len() && is_digit(buf[pos]) {
        lemma_digit_run_props(buf, pos + 1);
    }
}

/// A run of digits at `pos` whose next byte is no digit is the digit run.
pub proof fn lemma_digit_run_exact(buf: Seq<u8>, pos: int, ds: Seq<u8>)
    requires
        0 <= pos,
        pos + ds.len() <= buf.len(),
        buf.subrange(pos, pos + ds.len() as int) == ds,
        forall|i: int| 0 <= i < ds.len() ==> is_digit(#[trigger] ds[i]),
        pos + ds.len() == buf.len() || !is_digit(buf[pos + ds.len()]),
    ensures
        digit_run_len(buf, pos) == ds.len(),
        digit_run(buf, pos) == ds,
    decreases ds.len(),
{
    if ds.len() == 0 {
        assert(digit_run_len(buf, pos) == 0);
    } else {
        assert(buf[pos] == ds[0]);
        let ds2 = ds.subrange(1, ds.len() as int);
        assert(buf.subrange(pos + 1, pos + 1 + ds2.len() as int) =~= ds2);
        lemma_digit_run_exact(buf, pos + 1, ds2);
        assert(digit_run_len(buf, pos) == 1 + digit_run_len(buf, pos + 1));
        assert(digit_run(buf, pos) =~= ds);
    }
}

/// Parses the digit run at `pos` as a number of at most `limit`.
/// Returns the value and the position after the run; returns nothing
/// exactly when the run is empty, has a leading zero, or exceeds `limit`.
fn p_u64(buf: &Vec<u8>, pos: usize, limit: u64) -> (r: Option<(u64, usize)>)
    requires
        pos <= buf@.len(),
        limit <= 0xFFFF_FFFF_FFFF_FFF0u64,
    ensures
        r is Some <==> (canonical_digits(digit_run(buf@, pos as int))
            && from_digits(digit_run(buf@, pos as int)) <= limit),
        r is Some ==> r->Some_0.0 as int == from_digits(digit_run(buf@, pos as int)),
        r is Some ==> r->Some_0.1 as int == pos + digit_run_len(buf@, pos as int),
{
    let len = buf.len();
    proof {
        lemma_digit_run_props(buf@, pos as int);
    }
    let ghost run = digit_run(buf@, pos as int);
    if pos >= len || buf[pos] < 48 || buf[pos] > 57 {
        proof {
            assert(digit_run_len(buf@, pos as int) == 0);
            assert(!canonical_digits(run));
        }
        return None;
    }
    if buf[pos] == 48 {
        if pos + 1 < len && 48 <= buf[pos + 1] && buf[pos + 1] <= 57 {
            proof {
                assert(digit_run_len(buf@, pos + 1int) >= 1);
                assert(run.len() > 1 && run[0] == 48);
            }
            return None;
        }
        proof {
            assert(digit_run_len(buf@, pos + 1int) == 0);
            assert(run =~= seq![48u8]);
            assert(run.drop_last() =~= Seq::<u8>::empty());
            assert(from_digits(Seq::<u8>::empty()) == 0);
            assert(from_digits(run) == 0);
        }
        return Some((0, pos + 1));
    }
    let mut p: usize = pos;
    let mut acc: u64 = 0;
    let ghost rl = digit_run_len(buf@, pos as int);
    while p < len && 48 <= buf[p] && buf[p] <= 57
        invariant
            pos <= p <= len,
            len == buf@.len(),
            limit <= 0xFFFF_FFFF_FFFF_FFF0u64,
            rl == digit_run_len(buf@, pos as int),
            0 <= rl,
            pos + rl <= len,
            run == digit_run(buf@, pos as int),
            run.len() == rl,
            forall|i: int| pos <= i < pos + rl ==> is_digit(#[trigger] buf@[i]),
            pos + rl < len ==> !is_digit(buf@[pos + rl]),
            p - pos + digit_run_len(buf@, p as int) == rl,
            acc as int == from_digits(run.take(p - pos)),
            acc <= limit,
            canonical_digits(run),
        decreases len - p,
    {
        let d: u64 = (buf[p] - 48) as u64;
        proof {
            lemma_digit_run_props(buf@, p + 1int);
            assert(digit_run_len(buf@, p as int) == 1 + digit_run_len(buf@, p + 1int));
            assert(p - pos < rl);
            assert(run.take(p - pos + 1).drop_last() =~= run.take(p - pos));
            assert(run[p - pos] == buf@[p as int]);
            assert(from_digits(run.take(p - pos + 1)) == acc * 10 + d);
            lemma_from_digits_take_le(run, p - pos + 1);
        }
        if acc > limit / 10 {
            proof {
                assert(acc * 10 + d > limit) by (nonlinear_arith)
                    requires acc > limit / 10, d >= 0, limit >= 0,
                ;
                assert(from_digits(run) > limit);
            }
            return None;
        }
        proof {
            assert(acc * 10 + d <= limit + 9) by (nonlinear_arith)
                requires acc <= limit / 10, d <= 9, limit >= 0,
            ;
        }
        acc = acc * 10 + d;
        if acc > limit {
            proof {
                assert(from_digits(run) > limit);
            }
            return None;
        }
        p += 1;
    }
    proof {
        assert(digit_run_len(buf@, p as int) == 0);
        assert(p - pos == rl);
        assert(run.take(p - pos) =~= run);
    }
    Some((acc, p))
}

/// Every tree in a sequence is well-formed.
pub open spec fn wf_seq(vl: Seq<Bval>) -> bool {
    forall|k: int| 0 <= k < vl.len() ==> wf_bval(#[trigger] vl[k])
}

/// Every value in a pair sequence is well-formed.
pub open spec fn wf_pairs(vd: Seq<(Seq<u8>, Bval)>) -> bool {
    forall|k: int| 0 <= k < vd.len() ==> wf_bval(#[trigger] vd[k].1)
}

/// The encoding of `v` sits at `pos` in `buf`.
pub open spec fn starts_enc(buf: Seq<u8>, pos: int, v: Bval) -> bool {
    &&& 0 <= pos
    &&& pos + enc(v).len() <= buf.len()
    &&& buf.subrange(pos, pos + enc(v).len() as int) == enc(v)
}

/// The encoding of the well-formed sequence `vl` sits at `pos`, closed by `e`.
pub open spec fn seq_at(buf: Seq<u8>, pos: int, vl: Seq<Bval>) -> bool {
    &&& 0 <= pos
    &&& pos + enc_seq(vl).len() < buf.len()
    &&& buf.subrange(pos, pos + enc_seq(vl).len() as int) == enc_seq(vl)
    &&& buf[pos + enc_seq(vl).len()] == 101
    &&& wf_seq(vl)
}

/// The encoding of the well-formed pair sequence `vd` sits at `pos`, closed by `e`.
pub open spec fn pairs_at(buf: Seq<u8>, pos: int, vd: Seq<(Seq<u8>, Bval)>) -> bool {
    &&& 0 <= pos
    &&& pos + enc_pairs(vd).len() < buf.len()
    &&& buf.subrange(pos, pos + enc_pairs(vd).len() as int) == enc_pairs(vd)
    &&& buf[pos + enc_pairs(vd).len()] == 101
    &&& wf_pairs(vd)
}

/// An encoding is never empty, and its first byte names the shape.
pub proof fn lemma_enc_first(v: Bval)
    ensures
        enc(v).len() >= 2,
        v is Int ==> enc(v)[0] == 105,
        v is Str ==> is_digit(enc(v)[0]),
        v is List ==> enc(v)[0] == 108,
        v is Dict ==> enc(v)[0] == 100,
        enc(v)[0] != 101,
        enc(v)[0] != 45,
{
    match v {
        Bval::Int(i) => {
            if i < 0 {
                lemma_dec_digits_props((-i) as nat);
            } else {
                lemma_dec_digits_props(i as nat);
            }
        }
        Bval::Str(s) => {
            lemma_dec_digits_props(s.len());
            let dd = dec_digits(s.len());
            assert(enc(v)[0] == dd[0]);
            assert(is_digit(dd[0]));
        }
        Bval::List(_) => {}
        Bval::Dict(_) => {}
    }
}

/// Parses one bencoded value at `pos`. Returns the value and the position
/// after it; the consumed bytes are exactly the value's encoding, and on a
/// buffer that carries an encoding the parse always succeeds with it.
#[verifier::rlimit(100)]
fn p_item(buf: &Vec<u8>, pos: usize) -> (r: Option<(Item, usize)>)
    requires
        pos <= buf@.len(),
    ensures
        r is Some ==> pos < r->Some_0.1 <= buf@.len()
            && buf@.subrange(pos as int, r->Some_0.1 as int) == enc(r->Some_0.0.v()),
        forall|v: Bval| wf_bval(v) && #[trigger] starts_enc(buf@, pos as int, v)
            ==> r is Some && r->Some_0.0.v() == v
                && r->Some_0.1 == pos + enc(v).len(),
    decreases buf@.len() - pos, 0int,
{
    let len = buf.len();
    if pos >= len {
        proof {
            assert forall|v: Bval| wf_bval(v) && #[trigger] starts_enc(buf@, pos as int, v)
                implies false by {
                lemma_enc_first(v);
            }
        }
        return None;
    }
    let b0 = buf[pos];
    if b0 == 105 {
        // integer: 'i', optional '-', digits, 'e'
        let neg = pos + 1 < len && buf[pos + 1] == 45;
        let dstart = if neg { pos + 2 } else { pos + 1 };
        let limit: u64 = if neg { 0x8000_0000_0000_0000u64 } else { 0x7FFF_FFFF_FFFF_FFFFu64 };
        let ghost run = digit_run(buf@, dstart as int);
        proof {
            lemma_digit_run_props(buf@, dstart as int);
        }
        match p_u64(buf, dstart, limit) {
            None => {
                proof {
                    assert forall|v: Bval| wf_bval(v) && #[trigger] starts_enc(buf@, pos as int, v)
                        implies false by {
                        lemma_int_shape(buf@, pos as int, v, neg, dstart as int);
                        assert(canonical_digits(run) && from_digits(run) <= limit);
                    }
                }
                None
            }
            Some((mag, p2)) => {
                if p2 >= len || buf[p2] != 101 || (neg && mag == 0) {
                    proof {
                        assert forall|v: Bval| wf_bval(v)
                            && #[trigger] starts_enc(buf@, pos as int, v)
                            implies false by {
                            lemma_int_shape(buf@, pos as int, v, neg, dstart as int);
                        }
                    }
                    return None;
                }
                let val: i64 = if neg {
                    if mag == 0x8000_0000_0000_0000u64 {
                        i64::MIN
                    } else {
                        -(mag as i64)
                    }
                } else {
                    mag as i64
                };
                proof {
                    lemma_dec_from(run);
                    assert(dec_digits(mag as nat) == run);
                    assert(int_lit(val as int) == if neg { seq![45u8] + run } else { run });
                    let e = enc(Bval::Int(val as int));
                    assert(e =~= buf@.subrange(pos as int, p2 + 1int));
                    assert forall|v: Bval| wf_bval(v) && #[trigger] starts_enc(buf@, pos as int, v)
                        implies v == Bval::Int(val as int)
                            && p2 + 1 == pos + enc(v).len() by {
                        lemma_int_shape(buf@, pos as int, v, neg, dstart as int);
                        let n = v->Int_0;
                        let m = if n < 0 { (-n) as nat } else { n as nat };
                        assert(from_digits(run) == m);
                        lemma_from_dec(m);
                        assert(mag as int == m);
                    }
                }
                Some((Item::Int(val), p2 + 1))
            }
        }
    } else if 48 <= b0 && b0 <= 57 {
        // byte string: digits, ':', bytes
        let ghost run = digit_run(buf@, pos as int);
        proof {
            lemma_digit_run_props(buf@, pos as int);
        }
        let rem = len - pos;
        let limit: u64 = if rem as u64 > 0xFFFF_FFFF_FFFF_FFF0u64 {
            0xFFFF_FFFF_FFFF_FFF0u64
        } else {
            rem as u64
        };
        match p_u64(buf, pos, limit) {
            None => {
                proof {
                    assert forall|v: Bval| wf_bval(v) && #[trigger] starts_enc(buf@, pos as int, v)
                        implies false by {
                        lemma_str_shape(buf@, pos as int, v, len as int);
                    }
                }
                None
            }
            Some((n, p2)) => {
                if p2 >= len || buf[p2] != 58 || n > (len - p2 - 1) as u64 {
                    proof {
                        assert forall|v: Bval| wf_bval(v)
                            && #[trigger] starts_enc(buf@, pos as int, v)
                            implies false by {
                            lemma_str_shape(buf@, pos as int, v, len as int);
                        }
                    }
                    return None;
                }
                let nn = n as usize;
                let mut s: Vec<u8> = Vec::new();
                let mut k: usize = 0;
                while k < nn
                    invariant
                        k <= nn,
                        p2 + 1 + nn <= len,
                        len == buf@.len(),
                        s@ == buf@.subrange(p2 + 1int, p2 + 1 + k),
                    decreases nn - k,
                {
                    s.push(buf[p2 + 1 + k]);
                    proof {
                        assert(s@ =~= buf@.subrange(p2 + 1int, p2 + 1 + (k + 1int)));
                    }
                    k += 1;
                }
                proof {
                    lemma_dec_from(run);
                    assert(dec_digits(n as nat) == run);
                    let e = enc(Bval::Str(s@));
                    assert(s@.len() == n as nat);
                    assert(e =~= buf@.subrange(pos as int, p2 + 1 + nn));
                    assert forall|v: Bval| wf_bval(v) && #[trigger] starts_enc(buf@, pos as int, v)
                        implies v == Bval::Str(s@)
                            && p2 + 1 + nn == pos + enc(v).len() by {
                        lemma_str_shape(buf@, pos as int, v, len as int);
                        let sv = v->Str_0;
                        lemma_from_dec(sv.len());
                        assert(n as int == sv.len());
                        assert(sv =~= buf@.subrange(p2 + 1int, p2 + 1 + nn));
                    }
                }
                Some((Item::String(s), p2 + 1 + nn))
            }
        }
    } else if b0 == 108 {
        // list: 'l', items, 'e'
        match p_seq(buf, pos + 1) {
            None => {
                proof {
                    assert forall|v: Bval| wf_bval(v) && #[trigger] starts_enc(buf@, pos as int, v)
                        implies false by {
                        lemma_list_shape(buf@, pos as int, v);
                    }
                }
                None
            }
            Some((items, p2)) => {
                let it = Item::List(items);
                proof {
                    let e = enc(it.v());
                    assert(e =~= buf@.subrange(pos as int, p2 + 1int));
                    assert forall|v: Bval| wf_bval(v) && #[trigger] starts_enc(buf@, pos as int, v)
                        implies v == it.v() && p2 + 1 == pos + enc(v).len() by {
                        lemma_list_shape(buf@, pos as int, v);
                        assert(seq_at(buf@, pos + 1int, v->List_0));
                    }
                }
                Some((it, p2 + 1))
            }
        }
    } else if b0 == 100 {
        // dictionary: 'd', key/value pairs, 'e'
        match p_pairs(buf, pos + 1) {
            None => {
                proof {
                    assert forall|v: Bval| wf_bval(v) && #[trigger] starts_enc(buf@, pos as int, v)
                        implies false by {
                        lemma_dict_shape(buf@, pos as int, v);
                    }
                }
                None
            }
            Some((pairs, p2)) => {
                let it = Item::Dict(pairs);
                proof {
                    let e = enc(it.v());
                    assert(e =~= buf@.subrange(pos as int, p2 + 1int));
                    assert forall|v: Bval| wf_bval(v) && #[trigger] starts_enc(buf@, pos as int, v)
                        implies v == it.v() && p2 + 1 == pos + enc(v).len() by {
                        lemma_dict_shape(buf@, pos as int, v);
                        assert(pairs_at(buf@, pos + 1int, v->Dict_0));
                    }
                }
                Some((it, p2 + 1))
            }
        }
    } else {
        proof {
            assert forall|v: Bval| wf_bval(v) && #[trigger] starts_enc(buf@, pos as int, v)
                implies false by {
                lemma_enc_first(v);
                assert(buf@[pos as int] == enc(v)[0]);
            }
        }
        None
    }
}

/// Parses values until a closing `e`, which is not consumed.
fn p_seq(buf: &Vec<u8>, pos: usize) -> (r: Option<(Vec<Item>, usize)>)
    requires
        pos <= buf@.len(),
    ensures
        r is Some ==> pos <= r->Some_0.1 < buf@.len()
            && buf@[r->Some_0.1 as int] == 101
            && buf@.subrange(pos as int, r->Some_0.1 as int) == enc_seq(views(r->Some_0.0@)),
        forall|vl: Seq<Bval>| #[trigger] seq_at(buf@, pos as int, vl)
            ==> r is Some && views(r->Some_0.0@) == vl
                && r->Some_0.1 == pos + enc_seq(vl).len(),
    decreases buf@.len() - pos, 1int,
{
    let len = buf.len();
    if pos >= len {
        return None;
    }
    if buf[pos] == 101 {
        let out: Vec<Item> = Vec::new();
        proof {
            assert(views(out@) =~= Seq::<Bval>::empty());
            assert(buf@.subrange(pos as int, pos as int) =~= enc_seq(views(out@)));
            assert forall|vl: Seq<Bval>| #[trigger] seq_at(buf@, pos as int, vl)
                implies vl.len() == 0 by {
                if vl.len() > 0 {
                    lemma_enc_first(vl[0]);
                    assert(enc_seq(vl)[0] == enc(vl[0])[0]);
                    assert(buf@[pos as int] == enc_seq(vl)[0]);
                }
            }
            assert forall|vl: Seq<Bval>| #[trigger] seq_at(buf@, pos as int, vl)
                implies views(out@) == vl by {
                assert(vl.len() == 0);
                assert(vl =~= views(out@));
            }
        }
        return Some((out, pos));
    }
    match p_item(buf, pos) {
        None => {
            proof {
                assert forall|vl: Seq<Bval>| #[trigger] seq_at(buf@, pos as int, vl)
                    implies false by {
                    lemma_seq_head(buf@, pos as int, vl);
                }
            }
            None
        }
        Some((it, p1)) => {
            match p_seq(buf, p1) {
                None => {
                    proof {
                        assert forall|vl: Seq<Bval>| #[trigger] seq_at(buf@, pos as int, vl)
                            implies false by {
                            lemma_seq_head(buf@, pos as int, vl);
                            assert(starts_enc(buf@, pos as int, vl[0]));
                            assert(it.v() == vl[0]);
                            assert(seq_at(buf@, p1 as int, vl.subrange(1, vl.len() as int)));
                        }
                    }
                    None
                }
                Some((rest, p2)) => {
                    let mut items = rest;
                    let ghost rest0 = items@;
                    items.insert(0, it);
                    proof {
                        assert(items@[0] == it);
                        assert(items@.subrange(1, items@.len() as int) =~= rest0);
                        assert(views(items@) == seq![it.v()] + views(rest0));
                        assert((seq![it.v()] + views(rest0))
                            .subrange(1, 1 + views(rest0).len() as int) =~= views(rest0));
                        assert(enc_seq(views(items@)) == enc(it.v()) + enc_seq(views(rest0)));
                        assert(buf@.subrange(pos as int, p2 as int)
                            =~= buf@.subrange(pos as int, p1 as int)
                                + buf@.subrange(p1 as int, p2 as int));
                        assert(buf@.subrange(pos as int, p2 as int) =~= enc_seq(views(items@)));
                        assert forall|vl: Seq<Bval>| #[trigger] seq_at(buf@, pos as int, vl)
                            implies views(items@) == vl
                                && p2 == pos + enc_seq(vl).len() by {
                            lemma_seq_head(buf@, pos as int, vl);
                            assert(starts_enc(buf@, pos as int, vl[0]));
                            assert(it.v() == vl[0]);
                            let tl = vl.subrange(1, vl.len() as int);
                            assert(seq_at(buf@, p1 as int, tl));
                            assert(views(rest0) == tl);
                            assert(views(items@) =~= vl);
                        }
                    }
                    Some((items, p2))
                }
            }
        }
    }
}

/// Ten to the `k`.
pub open spec fn pow10(k: nat) -> nat
    decreases k,
{
    if k == 0 {
        1
    } else {
        10 * pow10((k - 1) as nat)
    }
}

/// A number of at least ten to the `k` has more than `k` digits.
pub proof fn lemma_dec_digits_len_lower(n: nat, k: nat)
    requires
        n >= pow10(k),
    ensures
        dec_digits(n).len() >= k + 1,
    decreases k,
{
    if k > 0 {
        assert(pow10(k) == 10 * pow10((k - 1) as nat));
        assert(pow10((k - 1) as nat) >= 1) by {
            lemma_pow10_pos((k - 1) as nat);
        }
        assert(n >= 10);
        assert(n / 10 >= pow10((k - 1) as nat)) by (nonlinear_arith)
            requires n >= 10 * pow10((k - 1) as nat), pow10((k - 1) as nat) >= 1,
        ;
        lemma_dec_digits_len_lower(n / 10, (k - 1) as nat);
    }
}

/// Ten to the `k` is positive.
pub proof fn lemma_pow10_pos(k: nat)
    ensures
        pow10(k) >= 1,
    decreases k,
{
    if k > 0 {
        lemma_pow10_pos((k - 1) as nat);
    }
}

/// What the head of an integer encoding at `pos` forces.
proof fn lemma_int_shape(buf: Seq<u8>, pos: int, v: Bval, neg: bool, dstart: int)
    requires
        starts_enc(buf, pos, v),
        wf_bval(v),
        pos < buf.len(),
        buf[pos] == 105,
        neg == (pos + 1 < buf.len() && buf[pos + 1] == 45),
        dstart == if neg { pos + 2 } else { pos + 1 },
    ensures
        v is Int,
        ({
            let n = v->Int_0;
            let m: nat = if n < 0 { (-n) as nat } else { n as nat };
            &&& (neg <==> n < 0)
            &&& digit_run(buf, dstart) == dec_digits(m)
            &&& digit_run_len(buf, dstart) == dec_digits(m).len()
            &&& canonical_digits(digit_run(buf, dstart))
            &&& from_digits(digit_run(buf, dstart)) == m
            &&& m <= (if neg { 0x8000_0000_0000_0000nat } else { 0x7FFF_FFFF_FFFF_FFFFnat })
            &&& (neg ==> m >= 1)
            &&& dstart + dec_digits(m).len() < buf.len()
            &&& buf[dstart + dec_digits(m).len()] == 101
            &&& pos + enc(v).len() == dstart + dec_digits(m).len() + 1
        }),
{
    lemma_enc_first(v);
    assert(buf[pos] == enc(v)[0]);
    assert(v is Int);
    let n = v->Int_0;
    let m: nat = if n < 0 { (-n) as nat } else { n as nat };
    let e = enc(v);
    let lit = int_lit(n);
    assert(e == seq![105u8] + lit + seq![101u8]);
    lemma_dec_digits_props(m);
    let dd = dec_digits(m);
    assert(forall|j: int| 0 <= j < e.len() ==> buf[pos + j] == #[trigger] e[j]);
    if n < 0 {
        assert(lit == seq![45u8] + dd);
        assert(e[1] == 45);
        assert(buf[pos + 1] == 45);
        assert(neg);
        assert(m >= 1);
    } else {
        assert(lit == dd);
        assert(e[1] == dd[0]);
        assert(is_digit(dd[0]));
        assert(buf[pos + 1] == dd[0]);
        assert(!neg);
    }
    let off = dstart - pos;
    assert(forall|j: int| 0 <= j < dd.len() ==> e[off + j] == #[trigger] dd[j]);
    assert(buf.subrange(dstart, dstart + dd.len() as int) =~= dd);
    assert(e[off + dd.len()] == 101);
    assert(buf[dstart + dd.len()] == 101);
    lemma_digit_run_exact(buf, dstart, dd);
    lemma_from_dec(m);
    if n < 0 {
        assert(m <= 0x8000_0000_0000_0000);
    } else {
        assert(m <= 0x7FFF_FFFF_FFFF_FFFF);
    }
}

/// What the head of a string encoding at `pos` forces.
proof fn lemma_str_shape(buf: Seq<u8>, pos: int, v: Bval, len: int)
    requires
        starts_enc(buf, pos, v),
        wf_bval(v),
        len == buf.len(),
        len <= 0xFFFF_FFFF_FFFF_FFFF,
        pos < len,
        is_digit(buf[pos]),
    ensures
        v is Str,
        ({
            let s = v->Str_0;
            let dd = dec_digits(s.len());
            &&& digit_run(buf, pos) == dd
            &&& digit_run_len(buf, pos) == dd.len()
            &&& canonical_digits(digit_run(buf, pos))
            &&& from_digits(digit_run(buf, pos)) == s.len()
            &&& s.len() <= len - pos - dd.len() - 1
            &&& s.len() <= 0xFFFF_FFFF_FFFF_FFF0nat
            &&& pos + dd.len() < len
            &&& buf[pos + dd.len()] == 58
            &&& pos + dd.len() + 1 + s.len() <= len
            &&& buf.subrange(pos + dd.len() + 1, pos + dd.len() + 1 + s.len() as int) == s
            &&& pos + enc(v).len() == pos + dd.len() + 1 + s.len()
        }),
{
    lemma_enc_first(v);
    assert(buf[pos] == enc(v)[0]);
    assert(v is Str);
    let s = v->Str_0;
    let e = enc(v);
    lemma_dec_digits_props(s.len());
    let dd = dec_digits(s.len());
    assert(e == dd + seq![58u8] + s);
    assert(forall|j: int| 0 <= j < e.len() ==> buf[pos + j] == #[trigger] e[j]);
    assert(forall|j: int| 0 <= j < dd.len() ==> e[j] == #[trigger] dd[j]);
    assert(buf.subrange(pos, pos + dd.len() as int) =~= dd);
    assert(e[dd.len() as int] == 58);
    assert(!is_digit(58u8));
    lemma_digit_run_exact(buf, pos, dd);
    lemma_from_dec(s.len());
    assert(forall|j: int| 0 <= j < s.len() ==> e[dd.len() + 1 + j] == #[trigger] s[j]);
    assert(buf.subrange(pos + dd.len() + 1, pos + dd.len() + 1 + s.len() as int) =~= s);
    if s.len() > 0xFFFF_FFFF_FFFF_FFF0nat {
        reveal_with_fuel(pow10, 17);
        assert(pow10(15) == 1_000_000_000_000_000nat);
        lemma_dec_digits_len_lower(s.len(), 15);
        assert(e.len() == dd.len() + 1 + s.len());
        assert(pos + e.len() <= len);
        assert(false);
    }
}

/// What the head of a list encoding at `pos` forces.
proof fn lemma_list_shape(buf: Seq<u8>, pos: int, v: Bval)
    requires
        starts_enc(buf, pos, v),
        wf_bval(v),
        pos < buf.len(),
        buf[pos] == 108,
    ensures
        v is List,
        seq_at(buf, pos + 1, v->List_0),
        pos + enc(v).len() == pos + 1 + enc_seq(v->List_0).len() + 1,
{
    lemma_enc_first(v);
    assert(buf[pos] == enc(v)[0]);
    assert(v is List);
    let vl = v->List_0;
    let e = enc(v);
    assert(e == seq![108u8] + enc_seq(vl) + seq![101u8]);
    assert(forall|j: int| 0 <= j < e.len() ==> buf[pos + j] == #[trigger] e[j]);
    assert(forall|j: int| 0 <= j < enc_seq(vl).len() ==> e[1 + j] == #[trigger] enc_seq(vl)[j]);
    assert(buf.subrange(pos + 1, pos + 1 + enc_seq(vl).len() as int) =~= enc_seq(vl));
    assert(e[1 + enc_seq(vl).len() as int] == 101);
    assert(buf[pos + 1 + enc_seq(vl).len()] == 101);
}

/// What the head of a dictionary encoding at `pos` forces.
proof fn lemma_dict_shape(buf: Seq<u8>, pos: int, v: Bval)
    requires
        starts_enc(buf, pos, v),
        wf_bval(v),
        pos < buf.len(),
        buf[pos] == 100,
    ensures
        v is Dict,
        pairs_at(buf, pos + 1, v->Dict_0),
        pos + enc(v).len() == pos + 1 + enc_pairs(v->Dict_0).len() + 1,
{
    lemma_enc_first(v);
    assert(buf[pos] == enc(v)[0]);
    assert(v is Dict);
    let vd = v->Dict_0;
    let e = enc(v);
    assert(e == seq![100u8] + enc_pairs(vd) + seq![101u8]);
    assert(forall|j: int| 0 <= j < e.len() ==> buf[pos + j] == #[trigger] e[j]);
    assert(forall|j: int| 0 <= j < enc_pairs(vd).len() ==> e[1 + j] == #[trigger] enc_pairs(vd)[j]);
    assert(buf.subrange(pos + 1, pos + 1 + enc_pairs(vd).len() as int) =~= enc_pairs(vd));
    assert(e[1 + enc_pairs(vd).len() as int] == 101);
    assert(buf[pos + 1 + enc_pairs(vd).len()] == 101);
}

/// Splits a sequence hypothesis into its head encoding and tail hypothesis.
proof fn lemma_seq_head(buf: Seq<u8>, pos: int, vl: Seq<Bval>)
    requires
        seq_at(buf, pos, vl),
        pos < buf.len(),
        buf[pos] != 101,
    ensures
        vl.len() >= 1,
        wf_bval(vl[0]),
        starts_enc(buf, pos, vl[0]),
        seq_at(buf, pos + enc(vl[0]).len(), vl.subrange(1, vl.len() as int)),
        enc_seq(vl).len() == enc(vl[0]).len() + enc_seq(vl.subrange(1, vl.len() as int)).len(),
{
    if vl.len() == 0 {
        assert(buf[pos] == 101);
        assert(false);
    }
    lemma_enc_first(vl[0]);
    let e0 = enc(vl[0]);
    let tl = vl.subrange(1, vl.len() as int);
    assert(enc_seq(vl) == e0 + enc_seq(tl));
    assert(buf.subrange(pos, pos + e0.len() as int)
        =~= enc_seq(vl).subrange(0, e0.len() as int));
    assert(enc_seq(vl).subrange(0, e0.len() as int) =~= e0);
    assert(buf.subrange(pos + e0.len(), pos + e0.len() + enc_seq(tl).len() as int)
        =~= enc_seq(vl).subrange(e0.len() as int, enc_seq(vl).len() as int));
    assert(enc_seq(vl).subrange(e0.len() as int, enc_seq(vl).len() as int) =~= enc_seq(tl));
    assert forall|k: int| 0 <= k < tl.len() implies wf_bval(#[trigger] tl[k]) by {
        assert(tl[k] == vl[k + 1]);
    }
}

/// Splits a pair-sequence hypothesis into key, value, and tail hypotheses.
proof fn lemma_pairs_head(buf: Seq<u8>, pos: int, vd: Seq<(Seq<u8>, Bval)>)
    requires
        pairs_at(buf, pos, vd),
        pos < buf.len(),
        buf[pos] != 101,
    ensures
        vd.len() >= 1,
        wf_bval(vd[0].1),
        starts_enc(buf, pos, Bval::Str(vd[0].0)),
        starts_enc(buf, pos + enc_str(vd[0].0).len(), vd[0].1),
        pairs_at(
            buf,
            pos + enc_str(vd[0].0).len() + enc(vd[0].1).len(),
            vd.subrange(1, vd.len() as int),
        ),
        enc_pairs(vd).len() == enc_str(vd[0].0).len() + enc(vd[0].1).len()
            + enc_pairs(vd.subrange(1, vd.len() as int)).len(),
        enc(Bval::Str(vd[0].0)) == enc_str(vd[0].0),
{
    if vd.len() == 0 {
        assert(buf[pos] == 101);
        assert(false);
    }
    let k0 = vd[0].0;
    let v0 = vd[0].1;
    let e0 = enc_str(k0);
    let e1 = enc(v0);
    let tl = vd.subrange(1, vd.len() as int);
    assert(enc_pairs(vd) == e0 + e1 + enc_pairs(tl));
    let all = enc_pairs(vd);
    assert(forall|j: int| 0 <= j < all.len() ==> buf[pos + j] == #[trigger] all[j]);
    assert(forall|j: int| 0 <= j < e0.len() ==> all[j] == #[trigger] e0[j]);
    assert(forall|j: int| 0 <= j < e1.len() ==> all[e0.len() + j] == #[trigger] e1[j]);
    assert(forall|j: int| 0 <= j < enc_pairs(tl).len()
        ==> all[e0.len() + e1.len() + j] == #[trigger] enc_pairs(tl)[j]);
    assert(buf.subrange(pos, pos + e0.len() as int) =~= e0);
    assert(buf.subrange(pos + e0.len(), pos + e0.len() + e1.len() as int) =~= e1);
    assert(buf.subrange(
        pos + e0.len() + e1.len(),
        pos + e0.len() + e1.len() + enc_pairs(tl).len() as int,
    ) =~= enc_pairs(tl));
    assert forall|k: int| 0 <= k < tl.len() implies wf_bval(#[trigger] tl[k].1) by {
        assert(tl[k] == vd[k + 1]);
    }
}

/// Parses key/value pairs until a closing `e`, which is not consumed.
fn p_pairs(buf: &Vec<u8>, pos: usize) -> (r: Option<(Vec<(Vec<u8>, Item)>, usize)>)
    requires
        pos <= buf@.len(),
    ensures
        r is Some ==> pos <= r->Some_0.1 < buf@.len()
            && buf@[r->Some_0.1 as int] == 101
            && buf@.subrange(pos as int, r->Some_0.1 as int)
                == enc_pairs(pair_views(r->Some_0.0@)),
        forall|vd: Seq<(Seq<u8>, Bval)>| #[trigger] pairs_at(buf@, pos as int, vd)
            ==> r is Some && pair_views(r->Some_0.0@) == vd
                && r->Some_0.1 == pos + enc_pairs(vd).len(),
    decreases buf@.len() - pos, 1int,
{
    let len = buf.len();
    if pos >= len {
        return None;
    }
    if buf[pos] == 101 {
        let out: Vec<(Vec<u8>, Item)> = Vec::new();
        proof {
            assert(pair_views(out@) =~= Seq::<(Seq<u8>, Bval)>::empty());
            assert(buf@.subrange(pos as int, pos as int) =~= enc_pairs(pair_views(out@)));
            assert forall|vd: Seq<(Seq<u8>, Bval)>| #[trigger] pairs_at(buf@, pos as int, vd)
                implies pair_views(out@) == vd by {
                if vd.len() > 0 {
                    lemma_dec_digits_props(vd[0].0.len());
                    let e0 = enc_str(vd[0].0);
                    assert(e0[0] == dec_digits(vd[0].0.len())[0]);
                    assert(is_digit(e0[0]));
                    assert(enc_pairs(vd)[0] == e0[0]);
                    assert(buf@[pos as int] == enc_pairs(vd)[0]);
                    assert(false);
                }
                assert(vd =~= pair_views(out@));
            }
        }
        return Some((out, pos));
    }
    let key = match p_item(buf, pos) {
        None => {
            proof {
                assert forall|vd: Seq<(Seq<u8>, Bval)>| #[trigger] pairs_at(buf@, pos as int, vd)
                    implies false by {
                    lemma_pairs_head(buf@, pos as int, vd);
                }
            }
            return None;
        }
        Some(kp) => kp,
    };
    let (kit, pk) = key;
    let ks = match kit {
        Item::String(ks) => ks,
        _ => {
            proof {
                assert forall|vd: Seq<(Seq<u8>, Bval)>| #[trigger] pairs_at(buf@, pos as int, vd)
                    implies false by {
                    lemma_pairs_head(buf@, pos as int, vd);
                    assert(starts_enc(buf@, pos as int, Bval::Str(vd[0].0)));
                }
            }
            return None;
        }
    };
    let val = match p_item(buf, pk) {
        None => {
            proof {
                assert forall|vd: Seq<(Seq<u8>, Bval)>| #[trigger] pairs_at(buf@, pos as int, vd)
                    implies false by {
                    lemma_pairs_head(buf@, pos as int, vd);
                    assert(starts_enc(buf@, pos as int, Bval::Str(vd[0].0)));
                    assert(pk == pos + enc_str(vd[0].0).len());
                    assert(starts_enc(buf@, pk as int, vd[0].1));
                }
            }
            return None;
        }
        Some(vp) => vp,
    };
    let (vit, p1) = val;
    match p_pairs(buf, p1) {
        None => {
            proof {
                assert forall|vd: Seq<(Seq<u8>, Bval)>| #[trigger] pairs_at(buf@, pos as int, vd)
                    implies false by {
                    lemma_pairs_head(buf@, pos as int, vd);
                    assert(starts_enc(buf@, pos as int, Bval::Str(vd[0].0)));
                    assert(pk == pos + enc_str(vd[0].0).len());
                    assert(starts_enc(buf@, pk as int, vd[0].1));
                    assert(p1 == pk + enc(vd[0].1).len());
                    assert(pairs_at(buf@, p1 as int, vd.subrange(1, vd.len() as int)));
                }
            }
            None
        }
        Some((rest, p2)) => {
            let mut pairs = rest;
            let ghost rest0 = pairs@;
            pairs.insert(0, (ks, vit));
            proof {
                let ghost tail = rest0;
                assert(pairs@[0].0 == ks && pairs@[0].1 == vit);
                assert(pairs@.subrange(1, pairs@.len() as int) =~= tail);
                assert(pair_views(pairs@)
                    == seq![(ks@, vit.v())] + pair_views(tail));
                assert((seq![(ks@, vit.v())] + pair_views(tail))
                    .subrange(1, 1 + pair_views(tail).len() as int) =~= pair_views(tail));
                assert(enc_pairs(pair_views(pairs@))
                    == enc_str(ks@) + enc(vit.v()) + enc_pairs(pair_views(tail)));
                assert(buf@.subrange(pos as int, p2 as int)
                    =~= buf@.subrange(pos as int, pk as int)
                        + buf@.subrange(pk as int, p1 as int)
                        + buf@.subrange(p1 as int, p2 as int));
                assert(buf@.subrange(pos as int, p2 as int) =~= enc_pairs(pair_views(pairs@)));
                assert forall|vd: Seq<(Seq<u8>, Bval)>| #[trigger] pairs_at(buf@, pos as int, vd)
                    implies pair_views(pairs@) == vd
                        && p2 == pos + enc_pairs(vd).len() by {
                    lemma_pairs_head(buf@, pos as int, vd);
                    assert(starts_enc(buf@, pos as int, Bval::Str(vd[0].0)));
                    assert(kit.v() == Bval::Str(vd[0].0));
                    assert(ks@ == vd[0].0);
                    assert(pk == pos + enc_str(vd[0].0).len());
                    assert(starts_enc(buf@, pk as int, vd[0].1));
                    assert(vit.v() == vd[0].1);
                    assert(p1 == pk + enc(vd[0].1).len());
                    let tl = vd.subrange(1, vd.len() as int);
                    assert(pairs_at(buf@, p1 as int, tl));
                    assert(pair_views(tail) == tl);
                    assert(pair_views(pairs@) =~= vd);
                }
            }
            Some((pairs, p2))
        }
    }
}

/// Parses a whole buffer as a sequence of bencoded values.
///
/// Exact inverse of `encode`: for every well-formed tree sequence, a buffer
/// that holds its encoding parses back to it, and whenever a parse succeeds
/// the buffer is exactly the encoding of the result.
pub fn parse(bytes: &Vec<u8>) -> (r: Option<Vec<Item>>)
    ensures
        r is Some ==> bytes@ == enc_seq(views(r->Some_0@)),
        forall|vl: Seq<Bval>| wf_seq(vl) && bytes@ == #[trigger] enc_seq(vl)
            ==> r is Some && views(r->Some_0@) == vl,
{
    proof {
        assert(bytes@.subrange(0, bytes@.len() as int) =~= bytes@);
    }
    match p_top(bytes, 0) {
        None => None,
        Some(items) => Some(items),
    }
}

/// Parses values from `pos` to the end of the buffer.
fn p_top(buf: &Vec<u8>, pos: usize) -> (r: Option<Vec<Item>>)
    requires
        pos <= buf@.len(),
    ensures
        r is Some ==> buf@.subrange(pos as int, buf@.len() as int)
            == enc_seq(views(r->Some_0@)),
        forall|vl: Seq<Bval>| wf_seq(vl)
            && buf@.subrange(pos as int, buf@.len() as int) == #[trigger] enc_seq(vl)
            ==> r is Some && views(r->Some_0@) == vl,
    decreases buf@.len() - pos, 1int,
{
    let len = buf.len();
    if pos >= len {
        let out: Vec<Item> = Vec::new();
        proof {
            assert(views(out@) =~= Seq::<Bval>::empty());
            assert(buf@.subrange(pos as int, len as int) =~= enc_seq(views(out@)));
            assert forall|vl: Seq<Bval>| wf_seq(vl)
                && buf@.subrange(pos as int, len as int) == #[trigger] enc_seq(vl)
                implies views(out@) == vl by {
                if vl.len() > 0 {
                    lemma_enc_first(vl[0]);
                    assert(enc_seq(vl).len() >= enc(vl[0]).len());
                }
                assert(vl =~= views(out@));
            }
        }
        return Some(out);
    }
    match p_item(buf, pos) {
        None => {
            proof {
                assert forall|vl: Seq<Bval>| wf_seq(vl)
                    && buf@.subrange(pos as int, len as int) == #[trigger] enc_seq(vl)
                    implies false by {
                    lemma_top_head(buf@, pos as int, vl);
                }
            }
            None
        }
        Some((it, p1)) => {
            match p_top(buf, p1) {
                None => {
                    proof {
                        assert forall|vl: Seq<Bval>| wf_seq(vl)
                            && buf@.subrange(pos as int, len as int) == #[trigger] enc_seq(vl)
                            implies false by {
                            lemma_top_head(buf@, pos as int, vl);
                            assert(starts_enc(buf@, pos as int, vl[0]));
                            assert(it.v() == vl[0]);
                            assert(buf@.subrange(p1 as int, len as int)
                                == enc_seq(vl.subrange(1, vl.len() as int)));
                        }
                    }
                    None
                }
                Some(rest) => {
                    let mut items = rest;
                    let ghost rest0 = items@;
                    items.insert(0, it);
                    proof {
                        let ghost tail = rest0;
                        assert(items@[0] == it);
                        assert(items@.subrange(1, items@.len() as int) =~= tail);
                        assert(views(items@) == seq![it.v()] + views(tail));
                        assert((seq![it.v()] + views(tail))
                            .subrange(1, 1 + views(tail).len() as int) =~= views(tail));
                        assert(enc_seq(views(items@))
                            == enc(it.v()) + enc_seq(views(tail)));
                        assert(buf@.subrange(pos as int, len as int)
                            =~= buf@.subrange(pos as int, p1 as int)
                                + buf@.subrange(p1 as int, len as int));
                        assert(buf@.subrange(pos as int, len as int)
                            =~= enc_seq(views(items@)));
                        assert forall|vl: Seq<Bval>| wf_seq(vl)
                            && buf@.subrange(pos as int, len as int) == #[trigger] enc_seq(vl)
                            implies views(items@) == vl by {
                            lemma_top_head(buf@, pos as int, vl);
                            assert(starts_enc(buf@, pos as int, vl[0]));
                            assert(it.v() == vl[0]);
                            let tl = vl.subrange(1, vl.len() as int);
                            assert(buf@.subrange(p1 as int, len as int) == enc_seq(tl));
                            assert(wf_seq(tl));
                            assert(views(tail) == tl);
                            assert(views(items@) =~= vl);
                        }
                    }
                    Some(items)
                }
            }
        }
    }
}

/// Splits a whole-buffer hypothesis into its head encoding and the rest.
proof fn lemma_top_head(buf: Seq<u8>, pos: int, vl: Seq<Bval>)
    requires
        wf_seq(vl),
        0 <= pos < buf.len(),
        buf.subrange(pos, buf.len() as int) == enc_seq(vl),
    ensures
        vl.len() >= 1,
        wf_bval(vl[0]),
        starts_enc(buf, pos, vl[0]),
        buf.subrange(pos + enc(vl[0]).len(), buf.len() as int)
            == enc_seq(vl.subrange(1, vl.len() as int)),
        wf_seq(vl.subrange(1, vl.len() as int)),
{
    if vl.len() == 0 {
        assert(enc_seq(vl).len() == 0);
        assert(false);
    }
    lemma_enc_first(vl[0]);
    let e0 = enc(vl[0]);
    let tl = vl.subrange(1, vl.len() as int);
    assert(enc_seq(vl) == e0 + enc_seq(tl));
    let all = enc_seq(vl);
    assert(all.len() == buf.len() - pos);
    assert(forall|j: int| 0 <= j < all.len() ==> buf[pos + j] == #[trigger] all[j]);
    assert(forall|j: int| 0 <= j < e0.len() ==> all[j] == #[trigger] e0[j]);
    assert(buf.subrange(pos, pos + e0.len() as int) =~= e0);
    assert(forall|j: int| 0 <= j < enc_seq(tl).len()
        ==> all[e0.len() + j] == #[trigger] enc_seq(tl)[j]);
    assert(buf.subrange(pos + e0.len(), buf.len() as int) =~= enc_seq(tl));
    assert forall|k: int| 0 <= k < tl.len() implies wf_bval(#[trigger] tl[k]) by {
        assert(tl[k] == vl[k + 1]);
    }
}

} // verus!
